//! A hierarchical timer wheel, which adds, removes and fires expiration events in
//! amortised constant time.
//!
//! The events are deferred until the wheel is advanced, as a part of the housekeeping of
//! a cache.
use std::time::Duration;

use vstd::arithmetic::power2::{lemma2_to64, lemma2_to64_rest, pow2};
use vstd::prelude::*;

use crate::common::concurrent::entry_table::EntryTable;
use crate::common::concurrent::{TimerPos, ValueEntry};
use crate::common::deque::{has_node, moved_to_back, position_of, DeqNode, Deque};
use crate::common::math::{is_next_power_of_two, next_power_of_two};
use crate::common::time::{duration_nanos, Instant};
use crate::common::CacheRegion;

verus! {

/// The number of levels of the hierarchy, the overflow level included.
pub const LEVELS: usize = 5;

/// The number of the level that takes what is too late for the others.
pub const OVERFLOW_QUEUE_INDEX: usize = 4;

/// The number of buckets of a level: roughly seconds, minutes, hours, days, and the
/// overflow.
pub open spec fn bucket_count(level: int) -> int {
    if level <= 1 {
        64
    } else if level == 2 {
        32
    } else if level == 3 {
        4
    } else {
        1
    }
}

/// The nanoseconds that one bucket of a level spans: 1.07 s, 1.14 min, 1.22 h, 1.63 d and
/// 6.5 d.
pub open spec fn span(level: int) -> int {
    if level <= 0 {
        0x4000_0000
    } else if level == 1 {
        0x10_0000_0000
    } else if level == 2 {
        0x400_0000_0000
    } else if level == 3 {
        0x8000_0000_0000
    } else {
        0x2_0000_0000_0000
    }
}

/// The number of buckets of a level.
pub fn bucket_counts(level: usize) -> (r: u64)
    requires
        level < LEVELS,
    ensures
        r == bucket_count(level as int),
{
    match level {
        0 => 64,
        1 => 64,
        2 => 32,
        3 => 4,
        _ => 1,
    }
}

/// The nanoseconds that one bucket of a level spans.
pub fn spans(level: usize) -> (r: u64)
    requires
        level <= LEVELS,
    ensures
        r == span(level as int),
{
    match level {
        0 => 0x4000_0000,
        1 => 0x10_0000_0000,
        2 => 0x400_0000_0000,
        3 => 0x8000_0000_0000,
        _ => 0x2_0000_0000_0000,
    }
}

/// The next power of two of the duration in nanoseconds.
pub fn aligned_duration(duration: Duration) -> (r: u64)
    requires
        duration_nanos(duration) <= 0x8000_0000_0000_0000,
    ensures
        is_next_power_of_two(duration_nanos(duration) as int, r as int),
{
    next_power_of_two(duration.as_nanos() as u64)
}

/// A bucket of a level spans the next power of two of a second, a minute, an hour or a day; of the
/// overflow, as much as all the days.
pub proof fn spans_are_aligned()
    ensures
        is_next_power_of_two(1_000_000_000, span(0)),
        is_next_power_of_two(60_000_000_000, span(1)),
        is_next_power_of_two(3_600_000_000_000, span(2)),
        is_next_power_of_two(86_400_000_000_000, span(3)),
        span(4) == bucket_count(3) * span(3),
{
    lemma2_to64();
    lemma2_to64_rest();
    assert(span(0) == pow2(30));
    assert(span(1) == pow2(36));
    assert(span(2) == pow2(42));
    assert(span(3) == pow2(47));
}

/// The number of whole buckets of a level that `nanos` nanoseconds span.
fn ticks_of(nanos: u64, level: usize) -> (r: u64)
    requires
        level < LEVELS,
    ensures
        r == nanos as int / span(level as int),
{
    assert(nanos >> 30 == nanos / 0x4000_0000) by (bit_vector);
    assert(nanos >> 36 == nanos / 0x10_0000_0000) by (bit_vector);
    assert(nanos >> 42 == nanos / 0x400_0000_0000) by (bit_vector);
    assert(nanos >> 47 == nanos / 0x8000_0000_0000) by (bit_vector);
    assert(nanos >> 49 == nanos / 0x2_0000_0000_0000) by (bit_vector);
    match level {
        0 => nanos >> 30,
        1 => nanos >> 36,
        2 => nanos >> 42,
        3 => nanos >> 47,
        _ => nanos >> 49,
    }
}

/// The index, among the buckets of a level, of the bucket of a tick.
fn index_of_ticks(ticks: u64, level: usize) -> (r: u64)
    requires
        level < LEVELS,
    ensures
        r == ticks as int % bucket_count(level as int),
        r < 64,
{
    assert(ticks & 63 == ticks % 64) by (bit_vector);
    assert(ticks & 31 == ticks % 32) by (bit_vector);
    assert(ticks & 3 == ticks % 4) by (bit_vector);
    assert(ticks & 0 == 0) by (bit_vector);
    ticks & (bucket_counts(level) - 1)
}

/// The nanoseconds from `origin` to `time`, or zero when `time` is the earlier one.
pub open spec fn nanos_since(origin: Instant, time: Instant) -> int {
    if origin.nanos <= time.nanos {
        time.nanos - origin.nanos
    } else {
        0
    }
}

/// The number of whole buckets of a level from `origin` to `time`.
pub open spec fn ticks(origin: Instant, time: Instant, level: int) -> int {
    nanos_since(origin, time) / span(level)
}

/// The level for an event `nanos` nanoseconds ahead: the lowest one that reaches so far.
pub open spec fn level_for(nanos: int) -> int {
    if nanos < span(1) {
        0
    } else if nanos < span(2) {
        1
    } else if nanos < span(3) {
        2
    } else if nanos < span(4) {
        3
    } else {
        4
    }
}

/// The index of the bucket for `time` at a level.
pub open spec fn index_for(origin: Instant, time: Instant, level: int) -> int {
    ticks(origin, time, level) % bucket_count(level)
}

/// An event of a timer wheel that was advanced.
#[derive(Clone, Copy, Debug, PartialEq, Eq, Structural)]
pub enum TimerEvent {
    /// This entry has expired.
    Expired(usize),
    /// This entry has not expired, and its timer was moved to another bucket.
    Rescheduled(usize),
    /// The timer of this entry was removed from the wheel.
    Descheduled(usize),
}

/// What became of a timer that was to be scheduled again.
#[must_use]
#[derive(Clone, Copy, Debug, PartialEq, Eq, Structural)]
pub enum ReschedulingResult {
    /// The timer was scheduled again.
    Rescheduled,
    /// The timer was removed, because the entry has no expiration time.
    Removed,
}

/// The contents of a timer wheel: for each bucket of each level, the entries in the order
/// in which they wait, and `None` for the sentinel among them.
pub struct WheelState {
    pub buckets: Seq<Seq<Seq<Option<usize>>>>,
    pub origin: Instant,
    pub current: Instant,
}

impl WheelState {
    pub open spec fn shaped(self) -> bool {
        &&& self.buckets.len() == LEVELS
        &&& forall|l: int| 0 <= l < LEVELS ==> (#[trigger] self.buckets[l]).len() == bucket_count(l)
    }

    /// There is such a place in the wheel.
    pub open spec fn has_place(self, level: int, index: int, k: int) -> bool {
        0 <= level < LEVELS && 0 <= index < bucket_count(level) && 0 <= k
            < self.buckets[level][index].len()
    }

    /// The bucket that an event at `time` belongs to.
    pub open spec fn bucket_for(self, time: Instant) -> (int, int) {
        let level = level_for(nanos_since(self.current, time));
        (level, index_for(self.origin, time, level))
    }

    pub open spec fn with_bucket(self, level: int, index: int, items: Seq<Option<usize>>) -> Self {
        WheelState {
            buckets: self.buckets.update(level, self.buckets[level].update(index, items)),
            ..self
        }
    }

    /// The wheel with the entry `e` added to the bucket for `time`.
    pub open spec fn scheduled(self, e: usize, time: Instant) -> Self {
        let (level, index) = self.bucket_for(time);
        self.with_bucket(level, index, self.buckets[level][index].push(Some(e)))
    }

    /// The entry `e` waits in the bucket.
    pub open spec fn waits_in(self, e: usize, level: int, index: int) -> bool {
        self.buckets[level][index].contains(Some(e))
    }
}

/// The place of the sentinel in a bucket.
pub open spec fn sentinel_at(items: Seq<Option<usize>>) -> int {
    choose|i: int| 0 <= i < items.len() && (#[trigger] items[i]) is None
}

/// There is one sentinel in the bucket.
pub open spec fn one_sentinel(items: Seq<Option<usize>>) -> bool {
    &&& exists|i: int| 0 <= i < items.len() && (#[trigger] items[i]) is None
    &&& forall|i: int, j: int|
        0 <= i < items.len() && 0 <= j < items.len() && (#[trigger] items[i]) is None && (
        #[trigger] items[j]) is None ==> i == j
}

/// The bucket turned so that the sentinel is the last: first those who came behind the
/// sentinel, then those who stood before it.
pub open spec fn turned(items: Seq<Option<usize>>) -> Seq<Option<usize>> {
    let p = sentinel_at(items);
    items.subrange(p + 1, items.len() as int) + items.subrange(0, p) + seq![None]
}

/// The position in a run over the events of a timer wheel.
pub struct IterState {
    pub previous_time: Instant,
    pub current_time: Instant,
    pub is_done: bool,
    pub level: int,
    pub index: int,
    pub end_index: int,
    pub is_new_level: bool,
    pub is_new_index: bool,
}

impl IterState {
    /// The bucket that the run is at.
    pub open spec fn bucket(self) -> int {
        self.index % bucket_count(self.level)
    }

    /// The run at the start of the buckets of its level that time has passed since the
    /// wheel was last advanced, or done when there is none.
    pub open spec fn entering_level(self, w: WheelState) -> Self {
        let previous = ticks(w.origin, self.previous_time, self.level);
        let current = ticks(w.origin, self.current_time, self.level);
        let count = bucket_count(self.level);
        if current <= previous {
            IterState { is_done: true, ..self }
        } else {
            let passed = current - previous + 1;
            IterState {
                index: previous % count,
                end_index: previous % count + if passed < count {
                    passed
                } else {
                    count
                },
                is_new_level: false,
                is_new_index: true,
                ..self
            }
        }
    }

    /// The run past the bucket it was at.
    pub open spec fn past_bucket(self) -> Self {
        let it = IterState { index: self.index + 1, is_new_index: true, ..self };
        if it.index < it.end_index {
            it
        } else if it.level + 1 < LEVELS {
            IterState { level: it.level + 1, is_new_level: true, ..it }
        } else {
            IterState { level: it.level + 1, is_done: true, ..it }
        }
    }
}

/// The next event of a run: the wheel and the run after it, and the event.
///
/// In each bucket that the run passes, those who wait before the sentinel are taken out in
/// turn. Who is expired is reported, who is not is scheduled again and reported, and who
/// has no expiration time is left out without a report.
pub open spec fn next_event(
    w: WheelState,
    it: IterState,
    expirations: Map<usize, Option<Instant>>,
) -> (WheelState, IterState, Option<TimerEvent>)
    decreases
            LEVELS - it.level,
            (if it.is_new_level {
                1int
            } else {
                0int
            }),
            it.end_index - it.index,
            (if it.is_new_index {
                1int
            } else {
                0int
            }),
            w.buckets[it.level][it.bucket()].len(),
    when w.shaped() && 0 <= it.level
{
    if it.is_done || it.level >= LEVELS {
        (w, it, None)
    } else if it.is_new_level {
        let entered = it.entering_level(w);
        if entered.is_done {
            (w, entered, None)
        } else {
            next_event(w, entered, expirations)
        }
    } else {
        let items = w.buckets[it.level][it.bucket()];
        if it.is_new_index {
            next_event(
                w.with_bucket(it.level, it.bucket(), turned(items)),
                IterState { is_new_index: false, ..it },
                expirations,
            )
        } else if items.len() > 0 && items[0] is Some {
            let e = items[0]->0;
            let popped = w.with_bucket(it.level, it.bucket(), items.remove(0));
            match expirations[e] {
                Some(t) => if t.nanos <= it.current_time.nanos {
                    (popped, it, Some(TimerEvent::Expired(e)))
                } else {
                    (popped.scheduled(e, t), it, Some(TimerEvent::Rescheduled(e)))
                },
                None => next_event(popped, it, expirations),
            }
        } else {
            let past = it.past_bucket();
            if past.is_done {
                (w, past, None)
            } else {
                next_event(w, past, expirations)
            }
        }
    }
}

/// A node in a bucket of a timer wheel.
#[derive(Clone, Copy, Debug, PartialEq, Eq, Structural)]
pub enum TimerNode {
    /// Parts those who were in the bucket before it was visited from those who came since.
    Sentinel,
    /// The timer of the entry of this number.
    Entry(usize),
}

impl TimerNode {
    pub open spec fn item(self) -> Option<usize> {
        match self {
            TimerNode::Sentinel => None,
            TimerNode::Entry(e) => Some(e),
        }
    }

    pub fn is_sentinel(&self) -> (r: bool)
        ensures
            r == (*self is Sentinel),
    {
        match self {
            TimerNode::Sentinel => true,
            TimerNode::Entry(_) => false,
        }
    }
}

/// The entries of a bucket, in their order.
pub open spec fn items_of(nodes: Seq<(usize, TimerNode)>) -> Seq<Option<usize>> {
    nodes.map_values(|p: (usize, TimerNode)| p.1.item())
}

/// The two entries differ at most in their timer nodes.
pub open spec fn same_but_timer<K, V>(a: ValueEntry<K, V>, b: ValueEntry<K, V>) -> bool {
    &&& a.value == b.value
    &&& a.info == b.info
    &&& a.nodes.access_order_q_node == b.nodes.access_order_q_node
    &&& a.nodes.write_order_q_node == b.nodes.write_order_q_node
}

/// The two tables hold the same entries, but for their timer nodes.
pub open spec fn all_same_but_timer<K, V>(
    a: Map<usize, ValueEntry<K, V>>,
    b: Map<usize, ValueEntry<K, V>>,
) -> bool {
    &&& a.dom() == b.dom()
    &&& forall|e: usize| a.dom().contains(e) ==> same_but_timer(#[trigger] a[e], b[e])
}

/// The expiration times of the entries of a table.
pub open spec fn expirations_of<K, V>(m: Map<usize, ValueEntry<K, V>>) -> Map<
    usize,
    Option<Instant>,
> {
    m.map_values(|v: ValueEntry<K, V>| v.info.expiration_time())
}

/// A hierarchical timer wheel.
pub struct TimerWheel {
    wheels: Vec<Vec<Deque<TimerNode>>>,
    /// The time when this timer wheel was created.
    origin: Instant,
    /// The time when this timer wheel was last advanced.
    current: Instant,
}

impl TimerWheel {
    /// The nodes of a bucket.
    pub closed spec fn nodes(&self, level: int, index: int) -> Seq<(usize, TimerNode)> {
        self.wheels@[level]@[index]@
    }

    pub closed spec fn view(&self) -> WheelState {
        WheelState {
            buckets: Seq::new(
                self.wheels@.len(),
                |l: int|
                    Seq::new(self.wheels@[l]@.len(), |i: int| items_of(self.nodes(l, i))),
            ),
            origin: self.origin,
            current: self.current,
        }
    }

    pub closed spec fn enabled(&self) -> bool {
        self.wheels@.len() > 0
    }

    spec fn bucket_wf(&self, level: int, index: int) -> bool {
        &&& self.wheels@[level]@[index].wf()
        &&& self.wheels@[level]@[index].spec_region() == CacheRegion::Other
        &&& one_sentinel(items_of(self.nodes(level, index)))
    }

    /// An enabled wheel has all its buckets, each with a sentinel.
    pub closed spec fn wf(&self) -> bool {
        self.wheels@.len() > 0 ==> {
            &&& self.wheels@.len() == LEVELS
            &&& forall|l: int| 0 <= l < LEVELS ==> (#[trigger] self.wheels@[l])@.len() == bucket_count(l)
            &&& forall|l: int, i: int|
                0 <= l < LEVELS && 0 <= i < bucket_count(l) ==> #[trigger] self.bucket_wf(l, i)
        }
    }

    /// The timer nodes that the entries know of are those that the wheel has.
    pub closed spec fn linked<K, V>(&self, entries: Map<usize, ValueEntry<K, V>>) -> bool {
        &&& self.enabled() ==> forall|l: int, i: int, k: int|
            0 <= l < LEVELS && 0 <= i < bucket_count(l) && 0 <= k < self.nodes(l, i).len() ==> (
            #[trigger] self.nodes(l, i)[k]).1 is Sentinel || self.knows(entries, l, i, k)
        &&& forall|e: usize|
            entries.dom().contains(e) && (#[trigger] entries[e]).nodes.timer_node is Some
                ==> self.enabled() && self.has_timer(entries[e].nodes.timer_node->0, e)
    }

    spec fn knows<K, V>(
        &self,
        entries: Map<usize, ValueEntry<K, V>>,
        l: int,
        i: int,
        k: int,
    ) -> bool {
        let (n, t) = self.nodes(l, i)[k];
        &&& entries.dom().contains(t->Entry_0)
        &&& entries[t->Entry_0].nodes.timer_node == Some(
            TimerPos { level: l as usize, index: i as usize, node: n },
        )
    }

    spec fn has_timer(&self, p: TimerPos, e: usize) -> bool {
        &&& p.level < LEVELS
        &&& p.index < bucket_count(p.level as int)
        &&& exists|k: int|
            0 <= k < self.nodes(p.level as int, p.index as int).len() && #[trigger] self.nodes(
                p.level as int,
                p.index as int,
            )[k] == (p.node, TimerNode::Entry(e))
    }

    /// The contents of a well-formed wheel.
    pub proof fn lemma_wf(&self)
        requires
            self.wf(),
        ensures
            self.enabled() ==> self@.shaped(),
            self.enabled() ==> forall|l: int, i: int|
                0 <= l < LEVELS && 0 <= i < bucket_count(l) ==> one_sentinel(
                    #[trigger] self@.buckets[l][i],
                ),
            !self.enabled() ==> self@.buckets.len() == 0,
    {
        if self.enabled() {
            assert forall|l: int, i: int| 0 <= l < LEVELS && 0 <= i < bucket_count(l) implies one_sentinel(
                #[trigger] self@.buckets[l][i],
            ) by {
                assert(self.bucket_wf(l, i));
            }
        }
    }

    pub fn new(now: Instant) -> (r: Self)
        ensures
            r.wf(),
            !r.enabled(),
            r@.origin == now,
            r@.current == now,
            r@.buckets.len() == 0,
    {
        TimerWheel { wheels: Vec::new(), origin: now, current: now }
    }

    /// A wheel that is not enabled holds no timer.
    pub proof fn lemma_not_enabled<K, V>(&self, entries: Map<usize, ValueEntry<K, V>>)
        requires
            !self.enabled(),
        ensures
            self.linked(entries) == (forall|e: usize|
                entries.dom().contains(e) ==> (#[trigger] entries[e]).nodes.timer_node is None),
    {
    }

    /// A wheel with nothing but sentinels is linked with entries that have no timer.
    pub proof fn lemma_empty_linked<K, V>(&self, entries: Map<usize, ValueEntry<K, V>>)
        requires
            self.wf(),
            self.enabled(),
            forall|l: int, i: int|
                0 <= l < LEVELS && 0 <= i < bucket_count(l) ==> #[trigger] self@.buckets[l][i]
                    == seq![None::<usize>],
            forall|e: usize|
                entries.dom().contains(e) ==> (#[trigger] entries[e]).nodes.timer_node is None,
        ensures
            self.linked(entries),
    {
        assert forall|l: int, i: int, k: int|
            0 <= l < LEVELS && 0 <= i < bucket_count(l) && 0 <= k < self.nodes(l, i).len() implies (
        #[trigger] self.nodes(l, i)[k]).1 is Sentinel || self.knows(entries, l, i, k) by {
            assert(self@.buckets[l][i] == items_of(self.nodes(l, i)));
            assert(self@.buckets[l][i][k] == self.nodes(l, i)[k].1.item());
        }
    }

    /// The wheel stays linked when the entries change in nothing but what the wheel does not
    /// know of.
    pub proof fn lemma_same_timers<K, V>(
        &self,
        before: Map<usize, ValueEntry<K, V>>,
        after: Map<usize, ValueEntry<K, V>>,
    )
        requires
            self.linked(before),
            before.dom() =~= after.dom(),
            forall|e: usize|
                before.dom().contains(e) ==> (#[trigger] after[e]).nodes.timer_node
                    == before[e].nodes.timer_node,
        ensures
            self.linked(after),
    {
        if self.enabled() {
            assert forall|l: int, i: int, k: int|
                0 <= l < LEVELS && 0 <= i < bucket_count(l) && 0 <= k < self.nodes(l, i).len() implies (
            #[trigger] self.nodes(l, i)[k]).1 is Sentinel || self.knows(after, l, i, k) by {
                assert(self.nodes(l, i)[k].1 is Sentinel || self.knows(before, l, i, k));
                if self.nodes(l, i)[k].1 is Entry {
                    let e = self.nodes(l, i)[k].1->Entry_0;
                    assert(after[e].nodes.timer_node == before[e].nodes.timer_node);
                }
            }
        }
        assert forall|x: usize|
            after.dom().contains(x) && (#[trigger] after[x]).nodes.timer_node is Some implies self.enabled()
            && self.has_timer(after[x].nodes.timer_node->0, x) by {
            assert(before[x].nodes.timer_node is Some);
        }
    }

    /// Sets the time from which on the buckets are counted, and the current time.
    pub fn set_origin(&mut self, time: Instant)
        requires
            old(self).wf(),
        ensures
            final(self).wf(),
            final(self)@ == (WheelState { origin: time, current: time, ..old(self)@ }),
            final(self).enabled() == old(self).enabled(),
            final(self).same_nodes(old(self)),
    {
        self.origin = time;
        self.current = time;
        assert(self@.buckets =~~= old(self)@.buckets);
        assert forall|l: int, i: int| 0 <= l < LEVELS && 0 <= i < bucket_count(l) && self.enabled() implies #[trigger] self.bucket_wf(
            l,
            i,
        ) by {
            assert(old(self).bucket_wf(l, i));
        }
    }

    pub fn is_enabled(&self) -> (r: bool)
        ensures
            r == self.enabled(),
    {
        self.wheels.len() > 0
    }

    /// Gives the wheel its buckets, each with nothing but a sentinel.
    pub fn enable(&mut self)
        requires
            old(self).wf(),
            !old(self).enabled(),
        ensures
            final(self).wf(),
            final(self).enabled(),
            final(self)@.origin == old(self)@.origin,
            final(self)@.current == old(self)@.current,
            forall|l: int, i: int|
                0 <= l < LEVELS && 0 <= i < bucket_count(l) ==> #[trigger] final(self)@.buckets[l][i] == seq![None::<usize>],
    {
        let mut wheels: Vec<Vec<Deque<TimerNode>>> = Vec::new();
        let mut level: usize = 0;
        while level < LEVELS
            invariant
                level <= LEVELS,
                wheels@.len() == level,
                forall|l: int| 0 <= l < level ==> (#[trigger] wheels@[l])@.len() == bucket_count(l),
                forall|l: int, i: int|
                    0 <= l < level && 0 <= i < bucket_count(l) ==> {
                        let d = #[trigger] wheels@[l]@[i];
                        d.wf() && d.spec_region() == CacheRegion::Other && items_of(d@)
                            == seq![None::<usize>]
                    },
            decreases LEVELS - level,
        {
            let count: u64 = bucket_counts(level);
            let mut buckets: Vec<Deque<TimerNode>> = Vec::new();
            let mut index: u64 = 0;
            while index < count
                invariant
                    index <= count,
                    count <= 64,
                    buckets@.len() == index,
                    forall|i: int|
                        0 <= i < index ==> {
                            let d = #[trigger] buckets@[i];
                            d.wf() && d.spec_region() == CacheRegion::Other && items_of(d@)
                                == seq![None::<usize>]
                        },
                decreases count - index,
            {
                let mut deq: Deque<TimerNode> = Deque::new(CacheRegion::Other);
                let node = deq.push_back(DeqNode::new(CacheRegion::Other, TimerNode::Sentinel));
                assert(items_of(deq@) =~= seq![None::<usize>]);
                buckets.push(deq);
                index = index + 1;
            }
            wheels.push(buckets);
            level = level + 1;
        }
        self.wheels = wheels;
        proof {
            assert forall|l: int, i: int| 0 <= l < LEVELS && 0 <= i < bucket_count(l) implies #[trigger] self.bucket_wf(
                l,
                i,
            ) by {
                let d = self.wheels@[l]@[i];
                assert(items_of(self.nodes(l, i)) == seq![None::<usize>]);
                assert(items_of(self.nodes(l, i))[0] is None);
            }
            assert forall|l: int, i: int| 0 <= l < LEVELS && 0 <= i < bucket_count(l) implies #[trigger] self@.buckets[l][i]
                == seq![None::<usize>] by {
                let d = self.wheels@[l]@[i];
                assert(items_of(self.nodes(l, i)) == seq![None::<usize>]);
            }
        }
    }

    // Returns nano-seconds between the given `time` and the time when this timer
    // wheel was advanced. If the `time` is earlier than other, returns zero.
    fn duration_nanos_since_last_advanced(&self, time: Instant) -> (r: u64)
        ensures
            r == nanos_since(self.current, time),
    {
        if self.current.nanos <= time.nanos {
            time.nanos - self.current.nanos
        } else {
            0
        }
    }

    // Returns nano-seconds between the given `time` and `self.origin`, the time when
    // this timer wheel was created. If the `time` is earlier than other, returns zero.
    fn time_nanos(&self, time: Instant) -> (r: u64)
        ensures
            r == nanos_since(self.origin, time),
    {
        if self.origin.nanos <= time.nanos {
            time.nanos - self.origin.nanos
        } else {
            0
        }
    }

    /// The bucket that a timer for `time` is put into: its level, and its index there.
    pub fn bucket_indices(&self, time: Instant) -> (r: (usize, usize))
        ensures
            (r.0 as int, r.1 as int) == self@.bucket_for(time),
            r.0 < LEVELS,
            r.1 < bucket_count(r.0 as int),
    {
        let duration_nanos: u64 = self.duration_nanos_since_last_advanced(time);
        let time_nanos: u64 = self.time_nanos(time);
        let mut level: usize = 0;
        while level < OVERFLOW_QUEUE_INDEX
            invariant
                level <= OVERFLOW_QUEUE_INDEX,
                duration_nanos == nanos_since(self.current, time),
                time_nanos == nanos_since(self.origin, time),
                level > 0 ==> duration_nanos >= span(level as int),
            decreases OVERFLOW_QUEUE_INDEX - level,
        {
            if duration_nanos < spans(level + 1) {
                let ticks: u64 = ticks_of(time_nanos, level);
                let index: u64 = index_of_ticks(ticks, level);
                return (level, index as usize);
            }
            level = level + 1;
        }
        (OVERFLOW_QUEUE_INDEX, 0)
    }

    /// What is left of a bucket's nodes, and of the links, when one bucket is replaced.
    proof fn lemma_bucket_replaced(&self, before: &TimerWheel, level: int, index: int)
        requires
            before.wf(),
            before.enabled(),
            0 <= level < LEVELS,
            0 <= index < bucket_count(level),
            self.origin == before.origin,
            self.current == before.current,
            self.wheels@.len() == before.wheels@.len(),
            forall|l: int| 0 <= l < LEVELS && l != level ==> self.wheels@[l] == before.wheels@[l],
            self.wheels@[level]@ == before.wheels@[level]@.update(
                index,
                self.wheels@[level]@[index],
            ),
            self.bucket_wf(level, index),
        ensures
            self.wf(),
            self.enabled(),
            forall|l: int, i: int|
                0 <= l < LEVELS && 0 <= i < bucket_count(l) && !(l == level && i == index)
                    ==> #[trigger] self.nodes(l, i) == before.nodes(l, i),
            self@ == before@.with_bucket(level, index, items_of(self.nodes(level, index))),
    {
        assert forall|l: int, i: int|
            0 <= l < LEVELS && 0 <= i < bucket_count(l) && !(l == level && i == index) implies #[trigger] self.nodes(
            l,
            i,
        ) == before.nodes(l, i) by {}
        assert forall|l: int, i: int| 0 <= l < LEVELS && 0 <= i < bucket_count(l) implies #[trigger] self.bucket_wf(
            l,
            i,
        ) by {
            assert(before.bucket_wf(l, i));
            if !(l == level && i == index) {
                assert(self.nodes(l, i) == before.nodes(l, i));
            }
        }
        assert forall|l: int| 0 <= l < LEVELS implies (#[trigger] self.wheels@[l])@.len() == bucket_count(l) by {
            assert(before.wheels@[l]@.len() == bucket_count(l));
        }
        let after = before@.with_bucket(level, index, items_of(self.nodes(level, index)));
        assert forall|l: int| 0 <= l < LEVELS implies #[trigger] self@.buckets[l] == after.buckets[l] by {
            assert(self@.buckets[l] =~= after.buckets[l]);
        }
        assert(self@.buckets =~= after.buckets);
    }

    /// Adds a timer for the entry `e` to a bucket.
    fn add_timer<K, V>(
        &mut self,
        entries: &mut EntryTable<K, V>,
        e: usize,
        level: usize,
        index: usize,
        expiry_gen: u32,
    )
        requires
            old(self).wf(),
            old(self).enabled(),
            old(entries).wf(),
            old(self).linked(old(entries)@),
            level < LEVELS,
            index < bucket_count(level as int),
            old(entries)@.dom().contains(e),
            old(entries)@[e].nodes.timer_node is None,
        ensures
            final(self).wf(),
            final(self).enabled(),
            final(entries).wf(),
            final(self).linked(final(entries)@),
            final(self)@ == old(self)@.with_bucket(
                level as int,
                index as int,
                old(self)@.buckets[level as int][index as int].push(Some(e)),
            ),
            all_same_but_timer(old(entries)@, final(entries)@),
            final(entries)@ == old(entries)@.insert(e, final(entries)@[e]),
            final(entries)@[e].nodes.timer_node is Some,
            final(entries)@[e].nodes.timer_node_expiry_gen == expiry_gen,
    {
        let ghost before = *self;
        let ghost m0 = entries@;
        assert(self.bucket_wf(level as int, index as int));
        let node: usize = self.wheels[level][index].push_back(
            DeqNode::new(CacheRegion::Other, TimerNode::Entry(e)),
        );
        let ghost l0 = level as int;
        let ghost i0 = index as int;
        let ghost nodes0 = before.nodes(l0, i0);
        assert(self.nodes(l0, i0) == nodes0.push((node, TimerNode::Entry(e))));
        proof {
            let items0 = items_of(nodes0);
            let items1 = items_of(self.nodes(l0, i0));
            assert(items1 =~= items0.push(Some(e)));
            let p = choose|i: int| 0 <= i < items0.len() && (#[trigger] items0[i]) is None;
            assert(items1[p] is None);
            assert forall|i: int, j: int|
                0 <= i < items1.len() && 0 <= j < items1.len() && (#[trigger] items1[i]) is None && (
                #[trigger] items1[j]) is None implies i == j by {
                assert(items0[i] is None);
                assert(items0[j] is None);
            }
            self.lemma_bucket_replaced(&before, l0, i0);
        }
        entries.get_mut(e).set_timer_node(Some(TimerPos { level, index, node }), expiry_gen);
        proof {
            let m1 = entries@;
            assert(m0.dom() =~= m1.dom());
            assert forall|l: int, i: int, k: int|
                0 <= l < LEVELS && 0 <= i < bucket_count(l) && 0 <= k < self.nodes(l, i).len() implies (
            #[trigger] self.nodes(l, i)[k]).1 is Sentinel || self.knows(m1, l, i, k) by {
                if l == l0 && i == i0 && k == nodes0.len() {
                } else {
                    assert(self.nodes(l, i)[k] == before.nodes(l, i)[k]);
                    assert(before.nodes(l, i)[k].1 is Sentinel || before.knows(m0, l, i, k));
                }
            }
            assert forall|x: usize|
                m1.dom().contains(x) && (#[trigger] m1[x]).nodes.timer_node is Some implies self.has_timer(
                m1[x].nodes.timer_node->0,
                x,
            ) by {
                if x == e {
                    assert(self.nodes(l0, i0)[nodes0.len() as int] == (node, TimerNode::Entry(e)));
                } else {
                    assert(m0[x] == m1[x]);
                    let p = m1[x].nodes.timer_node->0;
                    assert(before.has_timer(p, x));
                    let k = choose|k: int|
                        0 <= k < before.nodes(p.level as int, p.index as int).len()
                            && #[trigger] before.nodes(p.level as int, p.index as int)[k] == (
                            p.node,
                            TimerNode::Entry(x),
                        );
                    assert(self.nodes(p.level as int, p.index as int)[k] == (
                        p.node,
                        TimerNode::Entry(x),
                    ));
                }
            }
        }
    }

    /// Takes the timer of the entry `e` out of its bucket.
    fn remove_timer<K, V>(&mut self, entries: &mut EntryTable<K, V>, e: usize) -> (r: TimerPos)
        requires
            old(self).wf(),
            old(entries).wf(),
            old(self).linked(old(entries)@),
            old(entries)@.dom().contains(e),
            old(entries)@[e].nodes.timer_node is Some,
        ensures
            final(self).wf(),
            old(self).enabled(),
            final(self).enabled(),
            final(entries).wf(),
            final(self).linked(final(entries)@),
            r == old(entries)@[e].nodes.timer_node->0,
            r.level < LEVELS,
            r.index < bucket_count(r.level as int),
            has_node(old(self).nodes(r.level as int, r.index as int), r.node),
            ({
                let nodes = old(self).nodes(r.level as int, r.index as int);
                let k = position_of(nodes, r.node);
                &&& nodes[k] == (r.node, TimerNode::Entry(e))
                &&& 0 <= k < nodes.len()
                &&& final(self)@ == old(self)@.with_bucket(
                    r.level as int,
                    r.index as int,
                    old(self)@.buckets[r.level as int][r.index as int].remove(k),
                )
            }),
            all_same_but_timer(old(entries)@, final(entries)@),
            final(entries)@ == old(entries)@.insert(e, final(entries)@[e]),
            final(entries)@[e].nodes.timer_node is None,
            final(entries)@[e].nodes.timer_node_expiry_gen == 0,
    {
        let ghost before = *self;
        let ghost m0 = entries@;
        let taken = entries.get_mut(e).take_timer_node();
        let pos = taken.0.unwrap();
        let ghost l0 = pos.level as int;
        let ghost i0 = pos.index as int;
        let ghost nodes0 = before.nodes(l0, i0);
        proof {
            assert(m0[e].nodes.timer_node is Some);
            assert(before.has_timer(pos, e));
            let k = choose|k: int|
                0 <= k < nodes0.len() && #[trigger] nodes0[k] == (pos.node, TimerNode::Entry(e));
            assert(nodes0[k].0 == pos.node);
            assert(has_node(nodes0, pos.node));
            assert(before.bucket_wf(l0, i0));
            before.wheels@[l0]@[i0].lemma_wf();
        }
        let ghost p = position_of(nodes0, pos.node);
        assert(nodes0[p] == (pos.node, TimerNode::Entry(e)));
        let node = self.wheels[pos.level][pos.index].unlink(pos.node);
        assert(self.nodes(l0, i0) == nodes0.remove(p));
        proof {
            let nodes1 = self.nodes(l0, i0);
            let items0 = items_of(nodes0);
            let items1 = items_of(nodes1);
            assert(items1 =~= items0.remove(p));
            let s = choose|i: int| 0 <= i < items0.len() && (#[trigger] items0[i]) is None;
            assert(items0[p] is Some);
            let s1 = if s < p { s } else { s - 1 };
            assert(items1[s1] is None);
            assert forall|i: int, j: int|
                0 <= i < items1.len() && 0 <= j < items1.len() && (#[trigger] items1[i]) is None && (
                #[trigger] items1[j]) is None implies i == j by {
                let i2 = if i < p { i } else { i + 1 };
                let j2 = if j < p { j } else { j + 1 };
                assert(items0[i2] is None);
                assert(items0[j2] is None);
            }
            self.lemma_bucket_replaced(&before, l0, i0);
            let m1 = entries@;
            assert(m0.dom() =~= m1.dom());
            assert forall|l: int, i: int, k: int|
                0 <= l < LEVELS && 0 <= i < bucket_count(l) && 0 <= k < self.nodes(l, i).len() implies (
            #[trigger] self.nodes(l, i)[k]).1 is Sentinel || self.knows(m1, l, i, k) by {
                let k2 = if l == l0 && i == i0 && k >= p { k + 1 } else { k };
                assert(self.nodes(l, i)[k] == before.nodes(l, i)[k2]);
                assert(before.nodes(l, i)[k2].1 is Sentinel || before.knows(m0, l, i, k2));
                if before.nodes(l, i)[k2].1 is Entry && before.nodes(l, i)[k2].1->Entry_0 == e {
                    assert(before.nodes(l, i)[k2].0 == pos.node);
                    assert(l == l0 && i == i0);
                    assert(nodes0[k2].0 == nodes0[p].0);
                    assert(false);
                }
            }
            assert forall|x: usize|
                m1.dom().contains(x) && (#[trigger] m1[x]).nodes.timer_node is Some implies self.has_timer(
                m1[x].nodes.timer_node->0,
                x,
            ) by {
                assert(x != e);
                assert(m0[x] == m1[x]);
                let q = m1[x].nodes.timer_node->0;
                assert(before.has_timer(q, x));
                let k = choose|k: int|
                    0 <= k < before.nodes(q.level as int, q.index as int).len()
                        && #[trigger] before.nodes(q.level as int, q.index as int)[k] == (
                        q.node,
                        TimerNode::Entry(x),
                    );
                let k2 = if q.level == l0 && q.index == i0 && k > p { k - 1 } else { k };
                assert(self.nodes(q.level as int, q.index as int)[k2] == (
                    q.node,
                    TimerNode::Entry(x),
                ));
            }
        }
        pos
    }

    /// Schedules a timer for an entry that has none, if it has an expiration time.
    pub fn schedule<K, V>(
        &mut self,
        entries: &mut EntryTable<K, V>,
        e: usize,
        expiry_gen: u32,
    ) -> (r: Option<TimerPos>)
        requires
            old(self).wf(),
            old(self).enabled(),
            old(entries).wf(),
            old(self).linked(old(entries)@),
            old(entries)@.dom().contains(e),
            old(entries)@[e].nodes.timer_node is None,
        ensures
            final(self).wf(),
            final(self).enabled(),
            final(entries).wf(),
            final(self).linked(final(entries)@),
            all_same_but_timer(old(entries)@, final(entries)@),
            final(entries)@ == old(entries)@.insert(e, final(entries)@[e]),
            final(entries)@[e].nodes.timer_node == r,
            match old(entries)@[e].info.expiration_time() {
                Some(t) => r is Some && final(self)@ == old(self)@.scheduled(e, t) && final(entries)@[e].nodes.timer_node_expiry_gen == expiry_gen,
                None => r is None && final(self)@ == old(self)@ && final(entries)@ == old(entries)@,
            },
    {
        match entries.get(e).entry_info().expiration_state().0 {
            Some(t) => {
                let (level, index) = self.bucket_indices(t);
                self.add_timer(entries, e, level, index, expiry_gen);
                entries.get(e).timer_node_with_expiry_gen().0
            },
            None => {
                assert(entries@.insert(e, entries@[e]) =~= entries@);
                None
            },
        }
    }

    /// Schedules again a timer that was taken out of its bucket.
    fn schedule_existing_node<K, V>(
        &mut self,
        entries: &mut EntryTable<K, V>,
        e: usize,
        expiry_gen: u32,
    ) -> (r: ReschedulingResult)
        requires
            old(self).wf(),
            old(self).enabled(),
            old(entries).wf(),
            old(self).linked(old(entries)@),
            old(entries)@.dom().contains(e),
            old(entries)@[e].nodes.timer_node is None,
        ensures
            final(self).wf(),
            final(self).enabled(),
            final(entries).wf(),
            final(self).linked(final(entries)@),
            all_same_but_timer(old(entries)@, final(entries)@),
            final(entries)@ == old(entries)@.insert(e, final(entries)@[e]),
            match old(entries)@[e].info.expiration_time() {
                Some(t) => r is Rescheduled && final(self)@ == old(self)@.scheduled(e, t) && final(entries)@[e].nodes.timer_node is Some && final(entries)@[e].nodes.timer_node_expiry_gen == expiry_gen,
                None => r is Removed && final(self)@ == old(self)@ && final(entries)@ == old(entries)@,
            },
    {
        match entries.get(e).entry_info().expiration_state().0 {
            Some(t) => {
                let (new_level, new_index) = self.bucket_indices(t);
                self.add_timer(entries, e, new_level, new_index, expiry_gen);
                ReschedulingResult::Rescheduled
            },
            None => {
                assert(entries@.insert(e, entries@[e]) =~= entries@);
                ReschedulingResult::Removed
            },
        }
    }

    /// Moves the timer of an entry to the bucket for the expiration time that the entry has
    /// now, or removes the timer if the entry has none.
    pub fn reschedule<K, V>(&mut self, entries: &mut EntryTable<K, V>, e: usize) -> (r: ReschedulingResult)
        requires
            old(self).wf(),
            old(entries).wf(),
            old(self).linked(old(entries)@),
            old(entries)@.dom().contains(e),
            old(entries)@[e].nodes.timer_node is Some,
        ensures
            final(self).wf(),
            final(self).enabled(),
            final(entries).wf(),
            final(self).linked(final(entries)@),
            all_same_but_timer(old(entries)@, final(entries)@),
            final(entries)@ == old(entries)@.insert(e, final(entries)@[e]),
            ({
                let removed = without_timer(old(self)@, old(self).place_of(old(entries)@[e]));
                match old(entries)@[e].info.expiration_time() {
                    Some(t) => r is Rescheduled && final(self)@ == removed.scheduled(e, t) && final(entries)@[e].nodes.timer_node is Some && final(entries)@[e].nodes.timer_node_expiry_gen
                        == old(entries)@[e].nodes.timer_node_expiry_gen,
                    None => r is Removed && final(self)@ == removed && final(entries)@[e].nodes.timer_node is None,
                }
            }),
    {
        let ghost m0 = entries@;
        let expiry_gen: u32 = entries.get(e).timer_node_with_expiry_gen().1;
        let pos = self.remove_timer(entries, e);
        let ghost m1 = entries@;
        let r = self.schedule_existing_node(entries, e, expiry_gen);
        proof {
            assert(m0.insert(e, entries@[e]) =~= m1.insert(e, entries@[e]));
            assert(entries@ =~= m0.insert(e, entries@[e]));
        }
        r
    }

    /// Removes the timer of an entry.
    pub fn deschedule<K, V>(&mut self, entries: &mut EntryTable<K, V>, e: usize)
        requires
            old(self).wf(),
            old(entries).wf(),
            old(self).linked(old(entries)@),
            old(entries)@.dom().contains(e),
            old(entries)@[e].nodes.timer_node is Some,
        ensures
            final(self).wf(),
            final(self).enabled(),
            final(entries).wf(),
            final(self).linked(final(entries)@),
            all_same_but_timer(old(entries)@, final(entries)@),
            final(entries)@ == old(entries)@.insert(e, final(entries)@[e]),
            final(entries)@[e].nodes.timer_node is None,
            final(entries)@[e].nodes.timer_node_expiry_gen == 0,
            final(self)@ == without_timer(old(self)@, old(self).place_of(old(entries)@[e])),
    {
        let pos = self.remove_timer(entries, e);
    }

    /// The place of the timer of an entry: its level, its index there, and its position in
    /// the bucket.
    pub closed spec fn place_of<K, V>(&self, entry: ValueEntry<K, V>) -> (int, int, int) {
        let p = entry.nodes.timer_node->0;
        let level = p.level as int;
        let index = p.index as int;
        (level, index, position_of(self.nodes(level, index), p.node))
    }

    /// The place of the timer of an entry is one where the entry waits.
    pub proof fn lemma_place_of<K, V>(&self, entries: Map<usize, ValueEntry<K, V>>, e: usize)
        requires
            self.wf(),
            self.linked(entries),
            entries.dom().contains(e),
            entries[e].nodes.timer_node is Some,
        ensures
            ({
                let (level, index, k) = self.place_of(entries[e]);
                &&& self.enabled()
                &&& 0 <= level < LEVELS
                &&& 0 <= index < bucket_count(level)
                &&& 0 <= k < self@.buckets[level][index].len()
                &&& self@.buckets[level][index][k] == Some(e)
            }),
    {
        let p = entries[e].nodes.timer_node->0;
        assert(self.has_timer(p, e));
        let nodes = self.nodes(p.level as int, p.index as int);
        let k = choose|k: int|
            0 <= k < nodes.len() && #[trigger] nodes[k] == (p.node, TimerNode::Entry(e));
        assert(nodes[k].0 == p.node);
        assert(self.bucket_wf(p.level as int, p.index as int));
        self.wheels@[p.level as int]@[p.index as int].lemma_wf();
    }

    /// An entry waits at one place at most: where its timer node says.
    pub proof fn lemma_waits_once<K, V>(
        &self,
        entries: Map<usize, ValueEntry<K, V>>,
        level: int,
        index: int,
        k: int,
    )
        requires
            self.wf(),
            self.enabled(),
            self.linked(entries),
            0 <= level < LEVELS,
            0 <= index < bucket_count(level),
            0 <= k < self@.buckets[level][index].len(),
            self@.buckets[level][index][k] is Some,
        ensures
            ({
                let e = self@.buckets[level][index][k]->0;
                &&& entries.dom().contains(e)
                &&& entries[e].nodes.timer_node is Some
                &&& self.place_of(entries[e]) == (level, index, k)
            }),
    {
        let nodes = self.nodes(level, index);
        assert(nodes[k].1 is Sentinel || self.knows(entries, level, index, k));
        assert(self.bucket_wf(level, index));
        self.wheels@[level]@[index].lemma_wf();
        assert(has_node(nodes, nodes[k].0));
    }

    /// Takes the timer at the front of a bucket out, unless it is the sentinel.
    fn pop_timer_node<K, V>(
        &mut self,
        entries: &mut EntryTable<K, V>,
        level: usize,
        index: usize,
    ) -> (r: Option<(usize, u32)>)
        requires
            old(self).wf(),
            old(self).enabled(),
            old(entries).wf(),
            old(self).linked(old(entries)@),
            level < LEVELS,
            index < bucket_count(level as int),
        ensures
            final(self).wf(),
            final(self).enabled(),
            final(entries).wf(),
            final(self).linked(final(entries)@),
            all_same_but_timer(old(entries)@, final(entries)@),
            ({
                let items = old(self)@.buckets[level as int][index as int];
                &&& items.len() > 0
                &&& match r {
                    Some((e, g)) => {
                        &&& items[0] == Some(e)
                        &&& final(self)@ == old(self)@.with_bucket(
                            level as int,
                            index as int,
                            items.remove(0),
                        )
                        &&& final(entries)@.dom().contains(e)
                        &&& final(entries)@[e].nodes.timer_node is None
                        &&& final(entries)@ == old(entries)@.insert(e, final(entries)@[e])
                    },
                    None => items[0] is None && final(self)@ == old(self)@ && final(entries)@ == old(entries)@,
                }
            }),
    {
        let ghost l0 = level as int;
        let ghost i0 = index as int;
        proof {
            assert(self.bucket_wf(l0, i0));
            self.lemma_wf();
            let items = self@.buckets[l0][i0];
            let s = choose|i: int| 0 <= i < items.len() && (#[trigger] items[i]) is None;
        }
        let element = self.wheels[level][index].peek_front().unwrap().element;
        assert(element == self.nodes(l0, i0)[0].1);
        match element {
            TimerNode::Sentinel => None,
            TimerNode::Entry(e) => {
                proof {
                    self.lemma_waits_once(entries@, l0, i0, 0);
                }
                let expiry_gen: u32 = entries.get(e).timer_node_with_expiry_gen().1;
                let pos = self.remove_timer(entries, e);
                assert(position_of(old(self).nodes(l0, i0), pos.node) == 0);
                Some((e, expiry_gen))
            },
        }
    }
}

/// The wheel without the timer at a place.
pub open spec fn without_timer(w: WheelState, place: (int, int, int)) -> WheelState {
    let (level, index, k) = place;
    w.with_bucket(level, index, w.buckets[level][index].remove(k))
}

/// The nodes from the `k`-th on, and then those before it.
spec fn rotated(nodes: Seq<(usize, TimerNode)>, k: int) -> Seq<(usize, TimerNode)> {
    nodes.subrange(k, nodes.len() as int) + nodes.subrange(0, k)
}

impl TimerWheel {
    /// Turns a bucket so that its sentinel is the last.
    fn reset_timer_node_positions(&mut self, level: usize, index: usize)
        requires
            old(self).wf(),
            old(self).enabled(),
            level < LEVELS,
            index < bucket_count(level as int),
        ensures
            final(self).wf(),
            final(self).enabled(),
            final(self)@ == old(self)@.with_bucket(
                level as int,
                index as int,
                turned(old(self)@.buckets[level as int][index as int]),
            ),
            final(self).nodes(level as int, index as int) == rotated(
                old(self).nodes(level as int, index as int),
                sentinel_at(old(self)@.buckets[level as int][index as int]) + 1,
            ),
            forall|l: int, i: int|
                0 <= l < LEVELS && 0 <= i < bucket_count(l) && !(l == level && i == index)
                    ==> #[trigger] final(self).nodes(l, i) == old(self).nodes(l, i),
    {
        let ghost l0 = level as int;
        let ghost i0 = index as int;
        let ghost before = *self;
        let ghost nodes0 = self.nodes(l0, i0);
        let ghost items0 = items_of(nodes0);
        let ghost p = sentinel_at(items0);
        let ghost mut k: int = 0;
        proof {
            assert(self.bucket_wf(l0, i0));
            assert(self@.buckets[l0][i0] == items0);
            assert(rotated(nodes0, 0) =~= nodes0);
        }
        loop
            invariant_except_break
                k <= p,
            invariant
                level < LEVELS,
                index < bucket_count(level as int),
                l0 == level,
                i0 == index,
                before.wf(),
                before.enabled(),
                self.wf(),
                self.enabled(),
                nodes0 == before.nodes(l0, i0),
                items0 == items_of(nodes0),
                one_sentinel(items0),
                p == sentinel_at(items0),
                0 <= k,
                0 <= p < nodes0.len(),
                items0[p] is None,
                self.nodes(l0, i0) == rotated(nodes0, k),
                self.origin == before.origin,
                self.current == before.current,
                self.wheels@.len() == before.wheels@.len(),
                forall|l: int| 0 <= l < LEVELS && l != level ==> self.wheels@[l] == before.wheels@[l],
                self.wheels@[l0]@ == before.wheels@[l0]@.update(i0, self.wheels@[l0]@[i0]),
            ensures
                self.nodes(l0, i0) == rotated(nodes0, p + 1),
                self.bucket_wf(l0, i0),
            decreases p - k,
        {
            let ghost this = *self;
            assert(self.bucket_wf(l0, i0));
            let front = self.wheels[level][index].peek_front_ptr();
            let node: usize = front.unwrap();
            assert(self.nodes(l0, i0)[0] == nodes0[k]);
            proof {
                self.wheels@[l0]@[i0].lemma_wf();
                assert(has_node(self.nodes(l0, i0), node)) by {
                    assert(self.nodes(l0, i0)[0].0 == node);
                }
            }
            let is_sentinel = self.wheels[level][index].node(node).element.is_sentinel();
            self.wheels[level][index].move_to_back(node);
            proof {
                assert(position_of(this.nodes(l0, i0), node) == 0);
                assert(self.nodes(l0, i0) == moved_to_back(this.nodes(l0, i0), 0));
                assert(self.nodes(l0, i0) =~= rotated(nodes0, k + 1));
                assert(items0[k] is None <==> is_sentinel);
                lemma_rotated_sentinel(nodes0, k + 1);
                assert(self.wheels@[l0]@ =~= before.wheels@[l0]@.update(
                    i0,
                    self.wheels@[l0]@[i0],
                ));
                self.lemma_bucket_replaced(&before, l0, i0);
                k = k + 1;
            }
            if is_sentinel {
                break;
            }
        }
        proof {
            self.lemma_bucket_replaced(&before, l0, i0);
            assert(items_of(self.nodes(l0, i0)) =~= turned(items0));
        }
    }

    proof fn lemma_linked_rotated<K, V>(
        &self,
        before: &TimerWheel,
        level: int,
        index: int,
        k0: int,
        entries: Map<usize, ValueEntry<K, V>>,
    )
        requires
            before.wf(),
            before.enabled(),
            self.enabled(),
            before.linked(entries),
            0 <= level < LEVELS,
            0 <= index < bucket_count(level),
            0 <= k0 <= before.nodes(level, index).len(),
            self.nodes(level, index) == rotated(before.nodes(level, index), k0),
            forall|l: int, i: int|
                0 <= l < LEVELS && 0 <= i < bucket_count(l) && !(l == level && i == index)
                    ==> #[trigger] self.nodes(l, i) == before.nodes(l, i),
        ensures
            self.linked(entries),
    {
        let n = before.nodes(level, index).len() as int;
        assert forall|l: int, i: int, k: int|
            0 <= l < LEVELS && 0 <= i < bucket_count(l) && 0 <= k < self.nodes(l, i).len() implies (
        #[trigger] self.nodes(l, i)[k]).1 is Sentinel || self.knows(entries, l, i, k) by {
            let k2 = if l == level && i == index {
                if k < n - k0 {
                    k + k0
                } else {
                    k - (n - k0)
                }
            } else {
                k
            };
            assert(self.nodes(l, i)[k] == before.nodes(l, i)[k2]);
            assert(before.nodes(l, i)[k2].1 is Sentinel || before.knows(entries, l, i, k2));
        }
        assert forall|x: usize|
            entries.dom().contains(x) && (#[trigger] entries[x]).nodes.timer_node is Some implies self.has_timer(
            entries[x].nodes.timer_node->0,
            x,
        ) by {
            let q = entries[x].nodes.timer_node->0;
            assert(before.has_timer(q, x));
            let k = choose|k: int|
                0 <= k < before.nodes(q.level as int, q.index as int).len()
                    && #[trigger] before.nodes(q.level as int, q.index as int)[k] == (
                    q.node,
                    TimerNode::Entry(x),
                );
            let k2 = if q.level == level && q.index == index {
                if k >= k0 {
                    k - k0
                } else {
                    k + (n - k0)
                }
            } else {
                k
            };
            assert(self.nodes(q.level as int, q.index as int)[k2] == (q.node, TimerNode::Entry(x)));
        }
    }

    /// Advances the wheel to the current time, and returns a run over the events.
    pub fn advance(&mut self, current_time: Instant) -> (r: TimerEventsIter)
        requires
            old(self).wf(),
            old(self).enabled(),
        ensures
            final(self).wf(),
            final(self).enabled(),
            final(self)@ == (WheelState { current: current_time, ..old(self)@ }),
            final(self).same_nodes(old(self)),
            r.wf(),
            r@ == starting_run(old(self)@.current, current_time),
    {
        let previous_time = self.current;
        self.current = current_time;
        proof {
            assert(self@.buckets =~~= old(self)@.buckets);
            assert forall|l: int, i: int| 0 <= l < LEVELS && 0 <= i < bucket_count(l) implies #[trigger] self.bucket_wf(
                l,
                i,
            ) by {
                assert(old(self).bucket_wf(l, i));
            }
        }
        TimerEventsIter::new(previous_time, current_time)
    }

    /// The two wheels hold the same nodes.
    pub closed spec fn same_nodes(&self, other: &TimerWheel) -> bool {
        self.wheels@ == other.wheels@
    }

    /// Links depend on the nodes of a wheel alone.
    pub proof fn lemma_same_nodes<K, V>(
        &self,
        other: &TimerWheel,
        entries: Map<usize, ValueEntry<K, V>>,
    )
        requires
            self.same_nodes(other),
            other.linked(entries),
        ensures
            self.linked(entries),
    {
        if self.enabled() {
            assert forall|l: int, i: int, k: int|
                0 <= l < LEVELS && 0 <= i < bucket_count(l) && 0 <= k < self.nodes(l, i).len() implies (
            #[trigger] self.nodes(l, i)[k]).1 is Sentinel || self.knows(entries, l, i, k) by {
                assert(other.nodes(l, i)[k].1 is Sentinel || other.knows(entries, l, i, k));
            }
        }
        assert forall|x: usize|
            entries.dom().contains(x) && (#[trigger] entries[x]).nodes.timer_node is Some implies self.has_timer(
            entries[x].nodes.timer_node->0,
            x,
        ) by {
            let q = entries[x].nodes.timer_node->0;
            assert(other.has_timer(q, x));
            let k = choose|k: int|
                0 <= k < other.nodes(q.level as int, q.index as int).len()
                    && #[trigger] other.nodes(q.level as int, q.index as int)[k] == (
                    q.node,
                    TimerNode::Entry(x),
                );
            assert(self.nodes(q.level as int, q.index as int)[k] == (q.node, TimerNode::Entry(x)));
        }
    }
}

proof fn lemma_rotated_sentinel(nodes: Seq<(usize, TimerNode)>, k: int)
    requires
        0 <= k <= nodes.len(),
        one_sentinel(items_of(nodes)),
    ensures
        one_sentinel(items_of(rotated(nodes, k))),
{
    let n = nodes.len() as int;
    let items0 = items_of(nodes);
    let items1 = items_of(rotated(nodes, k));
    assert forall|i: int| 0 <= i < n implies #[trigger] items1[i] == items0[if i < n - k {
        i + k
    } else {
        i - (n - k)
    }] by {}
    let s = choose|i: int| 0 <= i < items0.len() && (#[trigger] items0[i]) is None;
    let s1 = if s >= k { s - k } else { s + (n - k) };
    assert(items1[s1] is None);
}

/// A run that has not met an event yet.
pub open spec fn starting_run(previous_time: Instant, current_time: Instant) -> IterState {
    IterState {
        previous_time,
        current_time,
        is_done: false,
        level: 0,
        index: 0,
        end_index: 0,
        is_new_level: true,
        is_new_index: true,
    }
}

/// A run over the events of a timer wheel that was advanced.
pub struct TimerEventsIter {
    previous_time: Instant,
    current_time: Instant,
    is_done: bool,
    level: usize,
    index: u8,
    end_index: u8,
    is_new_level: bool,
    is_new_index: bool,
}

impl TimerEventsIter {
    pub closed spec fn view(&self) -> IterState {
        IterState {
            previous_time: self.previous_time,
            current_time: self.current_time,
            is_done: self.is_done,
            level: self.level as int,
            index: self.index as int,
            end_index: self.end_index as int,
            is_new_level: self.is_new_level,
            is_new_index: self.is_new_index,
        }
    }

    pub closed spec fn wf(&self) -> bool {
        &&& !self.is_done ==> self.level < LEVELS
        &&& !self.is_done && !self.is_new_level ==> self.index < self.end_index <= 128
    }

    fn new(previous_time: Instant, current_time: Instant) -> (r: Self)
        ensures
            r.wf(),
            r@ == starting_run(previous_time, current_time),
    {
        TimerEventsIter {
            previous_time,
            current_time,
            is_done: false,
            level: 0,
            index: 0,
            end_index: 0,
            is_new_level: true,
            is_new_index: true,
        }
    }

    /// Ends the run. Where not all events were consumed, the wheel goes back to the time when
    /// it was last successfully advanced.
    pub fn finish(self, wheel: &mut TimerWheel)
        requires
            old(wheel).wf(),
        ensures
            final(wheel).wf(),
            final(wheel).enabled() == old(wheel).enabled(),
            final(wheel).same_nodes(old(wheel)),
            final(wheel)@ == if self@.is_done {
                old(wheel)@
            } else {
                WheelState { current: self@.previous_time, ..old(wheel)@ }
            },
    {
        if !self.is_done {
            wheel.current = self.previous_time;
            proof {
                assert(wheel@.buckets =~~= old(wheel)@.buckets);
                assert forall|l: int, i: int|
                    0 <= l < LEVELS && 0 <= i < bucket_count(l) && wheel.enabled() implies #[trigger] wheel.bucket_wf(
                    l,
                    i,
                ) by {
                    assert(old(wheel).bucket_wf(l, i));
                }
            }
        }
    }

    /// The next event. Where an entry has lost its timer, its timer node is unset.
    pub fn next<K, V>(
        &mut self,
        wheel: &mut TimerWheel,
        entries: &mut EntryTable<K, V>,
    ) -> (r: Option<TimerEvent>)
        requires
            old(self).wf(),
            old(wheel).wf(),
            old(wheel).enabled(),
            old(entries).wf(),
            old(wheel).linked(old(entries)@),
        ensures
            final(self).wf(),
            final(wheel).wf(),
            final(wheel).enabled(),
            final(entries).wf(),
            final(wheel).linked(final(entries)@),
            all_same_but_timer(old(entries)@, final(entries)@),
            (final(wheel)@, final(self)@, r) == next_event(
                old(wheel)@,
                old(self)@,
                expirations_of(old(entries)@),
            ),
    {
        let ghost w0 = wheel@;
        let ghost it0 = self@;
        let ghost m0 = entries@;
        let ghost x = expirations_of(m0);
        proof {
            wheel.lemma_wf();
        }
        if self.is_done {
            return None;
        }
        loop
            invariant
                !self.is_done,
                self.wf(),
                wheel.wf(),
                wheel.enabled(),
                wheel@.shaped(),
                entries.wf(),
                wheel.linked(entries@),
                all_same_but_timer(m0, entries@),
                x == expirations_of(m0),
                next_event(wheel@, self@, x) == next_event(w0, it0, x),
                old(wheel)@ == w0,
                old(self)@ == it0,
                old(entries)@ == m0,
            decreases
                    LEVELS - self.level,
                    (if self.is_new_level {
                        1int
                    } else {
                        0int
                    }),
                    self.end_index - self.index,
                    (if self.is_new_index {
                        1int
                    } else {
                        0int
                    }),
                    wheel@.buckets[self@.level][self@.bucket()].len(),
        {
            if self.is_new_level {
                let previous_time_nanos: u64 = wheel.time_nanos(self.previous_time);
                let current_time_nanos: u64 = wheel.time_nanos(self.current_time);
                let previous_ticks: u64 = ticks_of(previous_time_nanos, self.level);
                let current_ticks: u64 = ticks_of(current_time_nanos, self.level);
                if current_ticks <= previous_ticks {
                    self.is_done = true;
                    return None;
                }
                let count: u64 = bucket_counts(self.level);
                self.index = index_of_ticks(previous_ticks, self.level) as u8;
                let passed: u64 = current_ticks - previous_ticks;
                let steps: u8 = if passed < count {
                    (passed + 1) as u8
                } else {
                    count as u8
                };
                self.end_index = self.index + steps;
                self.is_new_level = false;
                self.is_new_index = true;
                continue;
            }
            let i: u64 = index_of_ticks(self.index as u64, self.level);
            if self.is_new_index {
                let ghost before = *wheel;
                wheel.reset_timer_node_positions(self.level, i as usize);
                proof {
                    before.lemma_wf();
                    let items = before@.buckets[self.level as int][i as int];
                    let s = choose|k: int| 0 <= k < items.len() && (#[trigger] items[k]) is None;
                    wheel.lemma_linked_rotated(
                        &before,
                        self.level as int,
                        i as int,
                        sentinel_at(items) + 1,
                        entries@,
                    );
                    wheel.lemma_wf();
                }
                self.is_new_index = false;
                continue;
            }
            let ghost m1 = entries@;
            match wheel.pop_timer_node(entries, self.level, i as usize) {
                Some((e, expiry_gen)) => {
                    proof {
                        wheel.lemma_wf();
                        assert(same_but_timer(m0[e], m1[e]));
                        assert(x[e] == m0[e].info.expiration_time());
                    }
                    match entries.get(e).entry_info().expiration_state().0 {
                        Some(t) => {
                            if t.nanos <= self.current_time.nanos {
                                return Some(TimerEvent::Expired(e));
                            }
                            match wheel.schedule_existing_node(entries, e, expiry_gen) {
                                ReschedulingResult::Rescheduled => {
                                    return Some(TimerEvent::Rescheduled(e));
                                },
                                ReschedulingResult::Removed => {
                                    return Some(TimerEvent::Descheduled(e));
                                },
                            }
                        },
                        None => {},
                    }
                },
                None => {
                    self.index = self.index + 1;
                    self.is_new_index = true;
                    if self.index >= self.end_index {
                        self.level = self.level + 1;
                        if self.level >= LEVELS {
                            self.is_done = true;
                            return None;
                        }
                        self.is_new_level = true;
                    }
                },
            }
        }
    }
}

/// All the buckets of a level together span just one bucket of the next.
pub proof fn levels_fit_together(level: int)
    requires
        0 <= level < 4,
    ensures
        bucket_count(level) * span(level) == span(level + 1),
        span(level) < span(level + 1),
{
}

/// A timer comes to the highest level of which one bucket is not longer than it has to wait, or to the
/// lowest if there is none.
pub proof fn timer_comes_to_its_level(nanos: int, level: int)
    requires
        0 <= level <= 4,
    ensures
        0 <= level_for(nanos) <= 4,
        level > 0 ==> (level <= level_for(nanos) <==> span(level) <= nanos),
{
}

/// A timer waits in the bucket of its time: at its level, whole spans of a bucket are counted from the
/// time of the origin, round and round. It comes behind all who wait there, and no other bucket changes.
pub proof fn timer_waits_behind_the_others(w: WheelState, e: usize, time: Instant, level: int, index: int)
    requires
        w.shaped(),
        w.origin.nanos <= w.current.nanos <= time.nanos,
        0 <= level < 5,
        0 <= index < bucket_count(level),
    ensures
        ({
            let wait = time.nanos - w.current.nanos;
            let since = time.nanos - w.origin.nanos;
            let is_level = (level == 0 || span(level) <= wait) && (level == 4 || wait < span(level + 1));
            let is_index = index == since / span(level) % bucket_count(level);
            w.scheduled(e, time).buckets[level][index] == if is_level && is_index {
                w.buckets[level][index].push(Some(e))
            } else {
                w.buckets[level][index]
            }
        }),
        w.scheduled(e, time).origin == w.origin,
        w.scheduled(e, time).current == w.current,
        w.scheduled(e, time).shaped(),
{
    let (l, i) = w.bucket_for(time);
    let ticks = nanos_since(w.origin, time) / span(l);
    vstd::arithmetic::div_mod::lemma_mod_bound(ticks, bucket_count(l));
    assert(w.buckets[l].len() == bucket_count(l));
}

/// A bucket is turned so that those who came since it was last visited come first, then those who waited
/// before, each in their order, and the sentinel last.
pub proof fn bucket_is_turned(a: Seq<Option<usize>>, b: Seq<Option<usize>>)
    requires
        forall|i: int| 0 <= i < a.len() ==> (#[trigger] a[i]) is Some,
        forall|i: int| 0 <= i < b.len() ==> (#[trigger] b[i]) is Some,
    ensures
        turned(a + seq![None] + b) == b + a + seq![None],
{
    let items = a + seq![None] + b;
    let n = a.len() as int;
    assert(items[n] is None);
    let p = sentinel_at(items);
    assert(0 <= p < items.len() && items[p] is None);
    if p < n {
        assert(items[p] == a[p]);
    } else if p > n {
        assert(items[p] == b[p - n - 1]);
    }
    assert(items.subrange(p + 1, items.len() as int) =~= b);
    assert(items.subrange(0, p) =~= a);
}

} // verus!
