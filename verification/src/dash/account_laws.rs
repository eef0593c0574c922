//! What holds of a cache while any number of writes wait to be shown to the policies: the hash table,
//! the queue, the counted weights and the waiting writes account for each other.
use vstd::prelude::*;

use super::state::{CacheState, Victims, MAX_CONSECUTIVE_RETRIES};
use crate::common::concurrent::deques::{lemma_moved_back, lemma_pushed, lemma_unlinked, unlinked};
use crate::common::op_log::WriteOp;

verus! {

/// What the entries of a queue weigh together, by these weights.
pub open spec fn total_of(queue: Seq<usize>, weight: spec_fn(usize) -> int) -> int
    decreases queue.len(),
{
    if queue.len() == 0 {
        0
    } else {
        weight(queue[0]) + total_of(queue.skip(1), weight)
    }
}

/// It is still to be shown to the policies that the entry was put under a key, or replaced.
pub open spec fn upsert_waits(writes: Seq<WriteOp>, e: usize) -> bool {
    exists|i: int|
        0 <= i < writes.len() && (#[trigger] writes[i]) is Upsert && writes[i]->Upsert_entry == e
}

/// It is still to be shown to the policies that the entry was removed.
pub open spec fn removal_waits(writes: Seq<WriteOp>, e: usize) -> bool {
    exists|i: int|
        0 <= i < writes.len() && (#[trigger] writes[i]) is Remove && writes[i]->Remove_entry == e
}

/// The weight by which an entry is counted, that weighs `weight` now: where writes to it wait, what it
/// weighed before the first of them.
pub open spec fn counted_weight(writes: Seq<WriteOp>, e: usize, weight: u32) -> u32
    decreases writes.len(),
{
    if writes.len() == 0 {
        weight
    } else {
        match writes[0] {
            WriteOp::Upsert { key, hash, entry, old_weight, new_weight } if entry == e => old_weight,
            _ => counted_weight(writes.skip(1), e, weight),
        }
    }
}

/// What the waiting writes may add to the weight at most.
pub open spec fn waiting_weight(writes: Seq<WriteOp>) -> int
    decreases writes.len(),
{
    if writes.len() == 0 {
        0
    } else {
        waiting_weight(writes.skip(1)) + match writes[0] {
            WriteOp::Upsert { key, hash, entry, old_weight, new_weight } => new_weight as int,
            WriteOp::Remove { key, entry } => 0,
        }
    }
}

/// The weights by which the entries are counted.
pub open spec fn counted_weights<V>(s: CacheState<V>) -> spec_fn(usize) -> int {
    |e: usize| counted_weight(s.writes, e, s.info(e).policy_weight) as int
}

/// The `i`-th of the waiting writes agrees with the hash table. An entry was put under its own key, and
/// weighs what the write says, until the next write to it; it is under its key, or its removal waits,
/// or it was turned away. A removed entry is gone for good, and what is under its key came later.
pub open spec fn is_right_write<V>(s: CacheState<V>, i: int) -> bool {
    let behind = s.writes.skip(i + 1);
    match s.writes[i] {
        WriteOp::Upsert { key, hash, entry, old_weight, new_weight } => {
            &&& s.info(entry).key_hash.key == key
            &&& s.info(entry).last_modified@ is Some
            &&& new_weight == counted_weight(behind, entry, s.info(entry).policy_weight)
            &&& s.in_cache(entry) || removal_waits(behind, entry) || (s.find(key) is None && !s.info(
                entry,
            ).is_admitted)
        },
        WriteOp::Remove { key, entry } => {
            &&& !s.in_cache(entry)
            &&& !upsert_waits(behind, entry)
            &&& s.find(s.info(entry).key_hash.key) matches Some(e) ==> upsert_waits(behind, e)
                && !upsert_waits(s.writes.take(i), e) && !s.info(e).is_admitted
        },
    }
}

/// The account, but for one entry, and with the counted weight off by `off`.
pub open spec fn accounted_but<V>(s: CacheState<V>, but: Option<usize>, off: int) -> bool {
    &&& s.wf()
    &&& s.counters.weighted_size == total_of(s.queues.probation, counted_weights(s)) + off
    &&& forall|e: usize| #[trigger]
        s.queues.probation.contains(e) ==> s.info(e).last_modified@ is Some && (Some(e) == but
            || s.in_cache(e) || removal_waits(s.writes, e))
    &&& forall|k: u64| #[trigger]
        s.cache.dom().contains(k) ==> Some(s.cache[k]) == but || s.info(s.cache[k]).is_admitted
            || upsert_waits(s.writes, s.cache[k])
    &&& forall|i: int| #![trigger s.writes[i]] 0 <= i < s.writes.len() ==> is_right_write(s, i)
}

/// The hash table, the queue, the counted weights and the waiting writes account for each other: who is
/// in the queue is in the hash table, or waits to be removed; who is in the hash table is in the queue,
/// or waits to be put there; the weights of all in the queue are counted.
pub open spec fn balanced<V>(s: CacheState<V>) -> bool {
    accounted_but(s, None, 0)
}

/// The same between two rounds of housekeeping, when nobody was turned away: who waits to be put into
/// the queue is in the hash table, or waits to be removed.
pub open spec fn accounted<V>(s: CacheState<V>) -> bool {
    &&& balanced(s)
    &&& forall|i: int| #![trigger s.writes[i]] 0 <= i < s.writes.len() ==> is_there(s, i)
}

/// The entry of the `i`-th of the waiting writes is under its key, or waits to be removed.
pub open spec fn is_there<V>(s: CacheState<V>, i: int) -> bool {
    match s.writes[i] {
        WriteOp::Upsert { key, hash, entry, old_weight, new_weight } => s.in_cache(entry)
            || removal_waits(s.writes.skip(i + 1), entry),
        WriteOp::Remove { key, entry } => true,
    }
}

/// Nothing goes astray when up to `n` of the waiting writes are shown to the policies in turn.
pub open spec fn none_strays_for<V>(s: CacheState<V>, n: nat) -> bool
    decreases n,
{
    n == 0 || s.writes.len() == 0 || (none_strays_at(s) && none_strays_for(
        s.write_applied(),
        (n - 1) as nat,
    ))
}

/// The weights and the number of the entries can be counted.
pub open spec fn fits<V>(s: CacheState<V>) -> bool {
    &&& s.counters.weighted_size + waiting_weight(s.writes) <= u64::MAX
    &&& s.counters.entry_count + s.writes.len() <= u64::MAX
}

/// Nothing goes astray when the first of the waiting writes is shown to the policies: nobody is let out
/// whose weight is about to change, and nobody is let in whose key is gone, unless their removal waits.
pub open spec fn none_strays_at<V>(s: CacheState<V>) -> bool {
    let t = s.write_applied();
    let rest = s.writes.skip(1);
    &&& keeps_count(CacheState { writes: rest, ..s }, t)
    &&& match s.writes[0] {
        WriteOp::Upsert { key, hash, entry, old_weight, new_weight } => t.info(entry).is_admitted
            && !s.info(entry).is_admitted ==> s.in_cache(entry) || removal_waits(rest, entry),
        WriteOp::Remove { key, entry } => true,
    }
}

/// Who is let out from `s` to `t` was counted by what they weigh.
pub open spec fn keeps_count<V>(s: CacheState<V>, t: CacheState<V>) -> bool {
    forall|x: usize|
        s.info(x).is_admitted && !(#[trigger] t.info(x)).is_admitted ==> counted_weight(
            s.writes,
            x,
            s.info(x).policy_weight,
        ) == s.info(x).policy_weight
}

/// From `s` to `t` nobody is let in, but for `e`.
pub open spec fn lets_in<V>(s: CacheState<V>, t: CacheState<V>, e: Option<usize>) -> bool {
    forall|x: usize| (#[trigger] t.info(x)).is_admitted ==> s.info(x).is_admitted || Some(x) == e
}

/// No removal waits of an entry whose key the entry `e` has got.
pub open spec fn replaces_none<V>(s: CacheState<V>, e: usize) -> bool {
    forall|i: int|
        0 <= i < s.writes.len() && (#[trigger] s.writes[i]) is Remove ==> s.find(
            s.info(s.writes[i]->Remove_entry).key_hash.key,
        ) != Some(e)
}

pub proof fn lemma_total_of_same(q: Seq<usize>, f: spec_fn(usize) -> int, g: spec_fn(usize) -> int)
    requires
        forall|i: int| 0 <= i < q.len() ==> f(#[trigger] q[i]) == g(q[i]),
    ensures
        total_of(q, f) == total_of(q, g),
    decreases q.len(),
{
    if q.len() > 0 {
        assert forall|i: int| 0 <= i < q.skip(1).len() implies f(#[trigger] q.skip(1)[i]) == g(q.skip(1)[i]) by {
            assert(q.skip(1)[i] == q[i + 1]);
        }
        lemma_total_of_same(q.skip(1), f, g);
        assert(f(q[0]) == g(q[0]));
    }
}

pub proof fn lemma_total_unlinked(q: Seq<usize>, f: spec_fn(usize) -> int, e: usize)
    requires
        q.no_duplicates(),
        q.contains(e),
    ensures
        total_of(unlinked(q, e), f) == total_of(q, f) - f(e),
    decreases q.len(),
{
    let i = q.index_of(e);
    assert(q[i] == e);
    let rest = q.skip(1);
    if i == 0 {
        assert(unlinked(q, e) =~= rest);
    } else {
        assert(rest[i - 1] == e);
        assert(rest.contains(e));
        assert(rest.no_duplicates()) by {
            assert forall|a: int, b: int| 0 <= a < rest.len() && 0 <= b < rest.len() && a != b implies rest[a]
                != rest[b] by {
                assert(rest[a] == q[a + 1] && rest[b] == q[b + 1]);
            }
        }
        let k = rest.index_of(e);
        assert(rest[k] == e);
        assert(q[k + 1] == e);
        assert(k + 1 == i);
        lemma_total_unlinked(rest, f, e);
        let r = unlinked(q, e);
        assert(r[0] == q[0]);
        assert(r.skip(1) =~= unlinked(rest, e));
    }
}

pub proof fn lemma_total_pushed(q: Seq<usize>, f: spec_fn(usize) -> int, e: usize)
    ensures
        total_of(q.push(e), f) == total_of(q, f) + f(e),
    decreases q.len(),
{
    let r = q.push(e);
    if q.len() == 0 {
        assert(r.skip(1) =~= Seq::<usize>::empty());
        assert(total_of(r.skip(1), f) == 0);
    } else {
        lemma_total_pushed(q.skip(1), f, e);
        assert(r.skip(1) =~= q.skip(1).push(e));
        assert(r[0] == q[0]);
    }
}

proof fn lemma_total_not_negative(q: Seq<usize>, f: spec_fn(usize) -> int)
    requires
        forall|e: usize| #[trigger] f(e) >= 0,
    ensures
        total_of(q, f) >= 0,
    decreases q.len(),
{
    if q.len() > 0 {
        lemma_total_not_negative(q.skip(1), f);
        assert(f(q[0]) >= 0);
    }
}

/// Who waits behind the first of the writes waits.
pub proof fn lemma_waits_behind(writes: Seq<WriteOp>, e: usize)
    requires
        writes.len() > 0,
    ensures
        upsert_waits(writes.skip(1), e) ==> upsert_waits(writes, e),
        removal_waits(writes.skip(1), e) ==> removal_waits(writes, e),
        upsert_waits(writes, e) ==> upsert_waits(writes.skip(1), e) || (writes[0] is Upsert
            && writes[0]->Upsert_entry == e),
        removal_waits(writes, e) ==> removal_waits(writes.skip(1), e) || (writes[0] is Remove
            && writes[0]->Remove_entry == e),
{
    let rest = writes.skip(1);
    if upsert_waits(rest, e) {
        let i = choose|i: int|
            0 <= i < rest.len() && (#[trigger] rest[i]) is Upsert && rest[i]->Upsert_entry == e;
        assert(writes[i + 1] == rest[i]);
    }
    if removal_waits(rest, e) {
        let i = choose|i: int|
            0 <= i < rest.len() && (#[trigger] rest[i]) is Remove && rest[i]->Remove_entry == e;
        assert(writes[i + 1] == rest[i]);
    }
    if upsert_waits(writes, e) {
        let i = choose|i: int|
            0 <= i < writes.len() && (#[trigger] writes[i]) is Upsert && writes[i]->Upsert_entry == e;
        if i > 0 {
            assert(rest[i - 1] == writes[i]);
        }
    }
    if removal_waits(writes, e) {
        let i = choose|i: int|
            0 <= i < writes.len() && (#[trigger] writes[i]) is Remove && writes[i]->Remove_entry == e;
        if i > 0 {
            assert(rest[i - 1] == writes[i]);
        }
    }
}

/// Where no write to an entry waits, it is counted by what it weighs.
pub proof fn lemma_counted_now(writes: Seq<WriteOp>, e: usize, weight: u32)
    requires
        !upsert_waits(writes, e),
    ensures
        counted_weight(writes, e, weight) == weight,
    decreases writes.len(),
{
    if writes.len() > 0 {
        lemma_waits_behind(writes, e);
        assert(writes[0] is Upsert ==> writes[0]->Upsert_entry != e);
        lemma_counted_now(writes.skip(1), e, weight);
    }
}

/// The first of the waiting writes is taken out of the log.
proof fn lemma_popped<V>(s: CacheState<V>)
    requires
        balanced(s),
        s.writes.len() > 0,
    ensures
        ({
            let p = CacheState { writes: s.writes.remove(0), ..s };
            let e = match s.writes[0] {
                WriteOp::Upsert { key, hash, entry, old_weight, new_weight } => entry,
                WriteOp::Remove { key, entry } => entry,
            };
            let off = match s.writes[0] {
                WriteOp::Upsert { key, hash, entry, old_weight, new_weight } => if s.info(
                    entry,
                ).is_admitted {
                    old_weight - new_weight
                } else {
                    0
                },
                WriteOp::Remove { key, entry } => 0,
            };
            &&& accounted_but(p, Some(e), off)
            &&& s.entries.dom().contains(e)
            &&& p.writes == s.writes.skip(1)
            &&& is_right_write(s, 0)
            &&& s.writes[0] is Upsert ==> replaces_none(p, e)
        }),
{
    let p = CacheState { writes: s.writes.remove(0), ..s };
    let q = s.queues.probation;
    assert(p.writes =~= s.writes.skip(1));
    assert(is_right_write(s, 0));
    assert(s.write_ok(s.writes[0]));
    assert forall|i: int| 0 <= i < p.writes.len() implies s.write_ok(#[trigger] p.writes[i]) by {
        assert(p.writes[i] == s.writes[i + 1]);
    }
    s.lemma_logs_wf(p);
    let e = match s.writes[0] {
        WriteOp::Upsert { key, hash, entry, old_weight, new_weight } => entry,
        WriteOp::Remove { key, entry } => entry,
    };
    assert forall|i: int| #![trigger p.writes[i]] 0 <= i < p.writes.len() implies is_right_write(p, i) by {
        assert(p.writes[i] == s.writes[i + 1]);
        assert(is_right_write(s, i + 1));
        assert(p.writes.skip(i + 1) =~= s.writes.skip(i + 2));
        match p.writes[i] {
            WriteOp::Upsert { key, hash, entry, old_weight, new_weight } => {},
            WriteOp::Remove { key, entry } => {
                let k = p.info(entry).key_hash.key;
                if p.find(k) is Some {
                    let before = s.writes.take(i + 1);
                    assert(before.skip(1) =~= p.writes.take(i));
                    lemma_waits_behind(before, p.cache[k]);
                }
            },
        }
    }
    if s.writes[0] is Upsert {
        assert forall|i: int| 0 <= i < p.writes.len() && (#[trigger] p.writes[i]) is Remove implies p.find(
            p.info(p.writes[i]->Remove_entry).key_hash.key,
        ) != Some(e) by {
            assert(p.writes[i] == s.writes[i + 1]);
            assert(is_right_write(s, i + 1));
            let before = s.writes.take(i + 1);
            assert(before[0] == s.writes[0]);
            assert(upsert_waits(before, e));
        }
    }
    assert forall|x: usize| #[trigger] p.queues.probation.contains(x) implies p.info(x).last_modified@ is Some && (
    Some(x) == Some(e) || p.in_cache(x) || removal_waits(p.writes, x)) by {
        assert(q.contains(x));
        lemma_waits_behind(s.writes, x);
    }
    assert forall|k: u64| #[trigger] p.cache.dom().contains(k) implies Some(p.cache[k]) == Some(e) || p.info(
        p.cache[k],
    ).is_admitted || upsert_waits(p.writes, p.cache[k]) by {
        assert(s.cache.dom().contains(k));
        lemma_waits_behind(s.writes, s.cache[k]);
    }
    let f = counted_weights(s);
    let g = counted_weights(p);
    assert forall|x: usize| x != e implies #[trigger] f(x) == g(x) by {}
    match s.writes[0] {
        WriteOp::Upsert { key, hash, entry, old_weight, new_weight } => {
            assert(f(e) == old_weight);
            assert(g(e) == new_weight);
            if s.info(e).is_admitted {
                assert(q.contains(e));
                lemma_total_unlinked(q, f, e);
                lemma_total_unlinked(q, g, e);
                lemma_unlinked(q, e);
                let rest = unlinked(q, e);
                assert forall|i: int| 0 <= i < rest.len() implies f(#[trigger] rest[i]) == g(rest[i]) by {
                    assert(rest.contains(rest[i]));
                }
                lemma_total_of_same(rest, f, g);
            } else {
                assert(!q.contains(e));
                assert forall|i: int| 0 <= i < q.len() implies f(#[trigger] q[i]) == g(q[i]) by {
                    assert(q.contains(q[i]));
                }
                lemma_total_of_same(q, f, g);
            }
        },
        WriteOp::Remove { key, entry } => {
            assert forall|i: int| 0 <= i < q.len() implies f(#[trigger] q[i]) == g(q[i]) by {}
            lemma_total_of_same(q, f, g);
        },
    }
}

/// From `a` to `b` no entry changes, but that it may be let in or out, no key comes, and nothing is
/// written.
pub open spec fn only_shrinks<V>(a: CacheState<V>, b: CacheState<V>) -> bool {
    &&& b.writes == a.writes
    &&& b.max_capacity == a.max_capacity
    &&& forall|x: usize|
        #![trigger b.info(x)]
        b.info(x).key_hash == a.info(x).key_hash && b.info(x).last_modified == a.info(x).last_modified
            && b.info(x).policy_weight == a.info(x).policy_weight
    &&& forall|k: u64| #[trigger]
        b.cache.dom().contains(k) ==> a.cache.dom().contains(k) && b.cache[k] == a.cache[k]
}

proof fn lemma_shrinks<V>(a: CacheState<V>, b: CacheState<V>, e: Option<usize>)
    requires
        only_shrinks(a, b),
        lets_in(a, b, e),
        forall|i: int| #![trigger a.writes[i]] 0 <= i < a.writes.len() ==> is_right_write(a, i),
        forall|x: usize| (#[trigger] b.info(x)).is_admitted && a.in_cache(x) ==> b.in_cache(x),
        e is Some ==> (a.in_cache(e->0) || removal_waits(a.writes, e->0)) && replaces_none(a, e->0),
    ensures
        forall|i: int| #![trigger b.writes[i]] 0 <= i < b.writes.len() ==> is_right_write(b, i),
        forall|q: Seq<usize>| #[trigger]
            total_of(q, counted_weights(b)) == total_of(q, counted_weights(a)),
        forall|x: usize| #[trigger] b.in_cache(x) ==> a.in_cache(x),
{
    assert forall|x: usize| #[trigger] b.in_cache(x) implies a.in_cache(x) by {
        assert(b.info(x).key_hash == a.info(x).key_hash);
        assert(b.cache.dom().contains(b.info(x).key_hash.key));
    }
    assert forall|i: int| #![trigger b.writes[i]] 0 <= i < b.writes.len() implies is_right_write(b, i) by {
        assert(is_right_write(a, i));
        match a.writes[i] {
            WriteOp::Upsert { key, hash, entry, old_weight, new_weight } => {
                assert(b.info(entry).key_hash == a.info(entry).key_hash);
                let behind = a.writes.skip(i + 1);
                if b.cache.dom().contains(key) {
                    assert(a.cache.dom().contains(key));
                }
                if b.info(entry).is_admitted && !a.in_cache(entry) && !removal_waits(behind, entry) {
                    assert(Some(entry) == e);
                    let r = choose|r: int|
                        0 <= r < a.writes.len() && (#[trigger] a.writes[r]) is Remove
                            && a.writes[r]->Remove_entry == entry;
                    assert(is_right_write(a, r));
                    if r > i {
                        assert(behind[r - i - 1] == a.writes[r]);
                    } else {
                        let last = a.writes.skip(r + 1);
                        assert(last[i - r - 1] == a.writes[i]);
                        assert(upsert_waits(last, entry));
                    }
                }
            },
            WriteOp::Remove { key, entry } => {
                assert(b.info(entry).key_hash == a.info(entry).key_hash);
                let k = b.info(entry).key_hash.key;
                if b.cache.dom().contains(k) {
                    assert(a.cache.dom().contains(k));
                    let x = b.cache[k];
                    if b.info(x).is_admitted {
                        assert(a.find(k) == Some(x));
                    }
                }
            },
        }
    }
    assert forall|q: Seq<usize>| #[trigger] total_of(q, counted_weights(b)) == total_of(
        q,
        counted_weights(a),
    ) by {
        let f = counted_weights(a);
        let g = counted_weights(b);
        assert forall|i: int| 0 <= i < q.len() implies g(#[trigger] q[i]) == f(q[i]) by {
            assert(b.info(q[i]).policy_weight == a.info(q[i]).policy_weight);
        }
        lemma_total_of_same(q, g, f);
    }
}

/// One entry is removed that is under its key, and is counted by what it weighs.
proof fn lemma_member_removed<V>(s: CacheState<V>, but: Option<usize>, e: usize)
    requires
        accounted_but(s, but, 0),
        s.queues.probation.contains(e),
        s.in_cache(e),
        counted_weight(s.writes, e, s.info(e).policy_weight) == s.info(e).policy_weight,
    ensures
        ({
            let after = s.without_key(s.info(e).key_hash.key).dismissed(e);
            &&& accounted_but(after, but, 0)
            &&& only_shrinks(s, after)
            &&& lets_in(s, after, None)
            &&& after.queues.probation == unlinked(s.queues.probation, e)
            &&& after.counters.weighted_size == s.counters.weighted_size - s.info(e).policy_weight
            &&& after.counters.entry_count == s.counters.entry_count - 1
        }),
{
    let q = s.queues.probation;
    let key = s.info(e).key_hash.key;
    assert(s.entries.dom().contains(e) && s.info(e).is_admitted);
    s.lemma_without_key_wf(key);
    s.without_key(key).lemma_dismissed_wf(e);
    let after = s.without_key(key).dismissed(e);
    lemma_unlinked(q, e);
    assert(only_shrinks(s, after));
    assert forall|x: usize| (#[trigger] after.info(x)).is_admitted && s.in_cache(x) implies after.in_cache(x) by {
        assert(x != e);
        assert(after.info(x).key_hash == s.info(x).key_hash);
    }
    lemma_shrinks(s, after, None);
    let f = counted_weights(s);
    assert(f(e) == s.info(e).policy_weight);
    lemma_total_unlinked(q, f, e);
    assert forall|x: usize| #[trigger] f(x) >= 0 by {}
    lemma_total_not_negative(unlinked(q, e), f);
    assert(total_of(unlinked(q, e), counted_weights(after)) == total_of(unlinked(q, e), f));
    assert forall|x: usize| #[trigger] after.queues.probation.contains(x) implies after.info(
        x,
    ).last_modified@ is Some && (Some(x) == but || after.in_cache(x) || removal_waits(after.writes, x)) by {
        assert(q.contains(x) && x != e);
        assert(after.info(x).key_hash == s.info(x).key_hash);
        if s.in_cache(x) {
            assert(s.info(x).key_hash.key != key);
        }
    }
    assert forall|k: u64| #[trigger] after.cache.dom().contains(k) implies Some(after.cache[k]) == but
        || after.info(after.cache[k]).is_admitted || upsert_waits(after.writes, after.cache[k]) by {
        assert(s.cache.dom().contains(k));
        assert(s.info(s.cache[k]).key_hash.key == k);
        assert(s.cache[k] != e);
    }
}

/// Moving entries to the back changes the account of none.
pub proof fn lemma_requeued<V>(s: CacheState<V>, t: CacheState<V>, but: Option<usize>, off: int)
    requires
        accounted_but(s, but, off),
        t.wf(),
        t.cache == s.cache,
        t.entries == s.entries,
        t.writes == s.writes,
        t.counters.weighted_size == s.counters.weighted_size,
        total_of(t.queues.probation, counted_weights(s)) == total_of(
            s.queues.probation,
            counted_weights(s),
        ),
        forall|e: usize| #[trigger]
            t.queues.probation.contains(e) ==> s.queues.probation.contains(e),
    ensures
        accounted_but(t, but, off),
{
    assert(counted_weights(t) =~= counted_weights(s)) by {
        assert forall|x: usize| #[trigger] counted_weights(t)(x) == counted_weights(s)(x) by {}
    }
    assert forall|x: usize| #[trigger] t.queues.probation.contains(x) implies t.info(x).last_modified@ is Some
        && (Some(x) == but || t.in_cache(x) || removal_waits(t.writes, x)) by {
        assert(s.queues.probation.contains(x));
    }
    assert forall|i: int| #![trigger t.writes[i]] 0 <= i < t.writes.len() implies is_right_write(t, i) by {
        assert(is_right_write(s, i));
    }
}

proof fn lemma_to_back<V>(s: CacheState<V>, but: Option<usize>, off: int, e: usize)
    requires
        accounted_but(s, but, off),
    ensures
        accounted_but(s.to_back_ao(e), but, off),
        accounted_but(s.to_back_wo(e), but, off),
{
    let q = s.queues.probation;
    let f = counted_weights(s);
    s.lemma_to_back_wf(e);
    lemma_moved_back(q, e);
    if q.contains(e) {
        lemma_total_unlinked(q, f, e);
        lemma_total_pushed(unlinked(q, e), f, e);
    }
    lemma_requeued(s, s.to_back_ao(e), but, off);
    lemma_requeued(s, s.to_back_wo(e), but, off);
}

proof fn lemma_all_to_back<V>(s: CacheState<V>, nodes: Seq<usize>, n: int)
    requires
        balanced(s),
    ensures
        balanced(s.all_to_back_ao(nodes, n)),
    decreases n,
{
    if n > 0 {
        lemma_all_to_back(s, nodes, n - 1);
        lemma_to_back(s.all_to_back_ao(nodes, n - 1), None, 0, nodes[n - 1]);
    }
}

/// A new entry is let in.
proof fn lemma_admitted<V>(s: CacheState<V>, e: usize, weight: u32)
    requires
        accounted_but(s, Some(e), 0),
        s.entries.dom().contains(e),
        !s.info(e).is_admitted,
        s.info(e).last_modified@ is Some,
        counted_weight(s.writes, e, s.info(e).policy_weight) == weight,
        s.in_cache(e) || removal_waits(s.writes, e),
        replaces_none(s, e),
        s.counters.weighted_size + weight <= u64::MAX,
        s.counters.entry_count < u64::MAX,
    ensures
        balanced(s.admitted(e, weight)),
        only_shrinks(s, s.admitted(e, weight)),
{
    let t = s.admitted(e, weight);
    let q = s.queues.probation;
    let f = counted_weights(s);
    s.lemma_admitted_wf(e, weight);
    assert(!q.contains(e));
    lemma_pushed(q, e);
    assert(only_shrinks(s, t));
    assert forall|x: usize| (#[trigger] t.info(x)).is_admitted && s.in_cache(x) implies t.in_cache(x) by {
        assert(t.info(x).key_hash == s.info(x).key_hash);
    }
    lemma_shrinks(s, t, Some(e));
    lemma_total_pushed(q, f, e);
    assert(f(e) == weight);
    assert(total_of(q.push(e), counted_weights(t)) == total_of(q.push(e), f));
    assert forall|x: usize| #[trigger] t.queues.probation.contains(x) implies t.info(x).last_modified@ is Some
        && (t.in_cache(x) || removal_waits(t.writes, x)) by {
        assert(t.info(x).key_hash == s.info(x).key_hash);
        if x != e {
            assert(q.contains(x));
        }
    }
    assert forall|k: u64| #[trigger] t.cache.dom().contains(k) implies t.info(t.cache[k]).is_admitted
        || upsert_waits(t.writes, t.cache[k]) by {
        assert(s.cache.dom().contains(k));
    }
}

/// What is under the key of an entry whose removal waits is not in the queue.
proof fn lemma_replacement_is_out<V>(s: CacheState<V>, but: Option<usize>, e: usize)
    requires
        accounted_but(s, but, 0),
        removal_waits(s.writes, e),
        s.find(s.info(e).key_hash.key) is Some,
    ensures
        !s.info(s.cache[s.info(e).key_hash.key]).is_admitted,
        !s.in_cache(e),
{
    let i = choose|i: int|
        0 <= i < s.writes.len() && (#[trigger] s.writes[i]) is Remove && s.writes[i]->Remove_entry == e;
    assert(is_right_write(s, i));
}

/// A key is taken out whose entry is not in the queue.
proof fn lemma_key_lost<V>(s: CacheState<V>, but: Option<usize>, key: u64)
    requires
        accounted_but(s, but, 0),
        s.find(key) matches Some(x) ==> !s.info(x).is_admitted,
    ensures
        accounted_but(s.without_key(key), but, 0),
        only_shrinks(s, s.without_key(key)),
        lets_in(s, s.without_key(key), None),
{
    let t = s.without_key(key);
    let q = s.queues.probation;
    s.lemma_without_key_wf(key);
    assert(only_shrinks(s, t));
    lemma_shrinks(s, t, None);
    assert forall|x: usize| #[trigger] t.queues.probation.contains(x) implies t.info(x).last_modified@ is Some
        && (Some(x) == but || t.in_cache(x) || removal_waits(t.writes, x)) by {
        assert(q.contains(x));
        assert(s.info(x).is_admitted);
    }
    assert forall|k: u64| #[trigger] t.cache.dom().contains(k) implies Some(t.cache[k]) == but || t.info(
        t.cache[k],
    ).is_admitted || upsert_waits(t.writes, t.cache[k]) by {
        assert(s.cache.dom().contains(k));
    }
}

/// A new entry is turned away.
proof fn lemma_rejected<V>(s: CacheState<V>, e: usize, key: u64)
    requires
        accounted_but(s, Some(e), 0),
        !s.info(e).is_admitted,
        s.entries.dom().contains(e),
        s.info(e).key_hash.key == key,
        s.in_cache(e) || removal_waits(s.writes, e) || s.find(key) is None,
    ensures
        balanced(s.without_key(key)),
{
    let t = s.without_key(key);
    if s.find(key) is Some && !s.in_cache(e) {
        lemma_replacement_is_out(s, Some(e), e);
    }
    lemma_key_lost(s, Some(e), key);
    assert(!s.queues.probation.contains(e));
    assert forall|k: u64| #[trigger] t.cache.dom().contains(k) implies t.info(t.cache[k]).is_admitted
        || upsert_waits(t.writes, t.cache[k]) by {
        assert(s.cache.dom().contains(k));
        assert(s.info(s.cache[k]).key_hash.key == k);
    }
}

spec fn all_in(nodes: Seq<usize>, queue: Seq<usize>) -> bool {
    forall|j: int| 0 <= j < nodes.len() ==> queue.contains(#[trigger] nodes[j])
}

/// The victims of a search are in the queue.
proof fn lemma_search<V>(s: CacheState<V>, weight: int, freq: int, i: int, v: Victims)
    requires
        all_in(v.nodes, s.queues.probation),
    ensures
        all_in(s.search(weight, freq, i, v).nodes, s.queues.probation),
    decreases s.queues.probation.len() - i,
{
    if v.policy_weight >= weight || freq < v.freq || v.retries > MAX_CONSECUTIVE_RETRIES || !(0 <= i
        < s.queues.probation.len()) {
    } else {
        let n = s.queues.probation[i];
        assert(s.queues.probation.contains(n));
        match s.find(s.info(n).key_hash.key) {
            Some(e) => {
                let w = Victims {
                    nodes: v.nodes.push(n),
                    policy_weight: v.policy_weight + s.info(e).policy_weight,
                    freq: v.freq + s.sketch.frequency(s.info(n).key_hash.hash),
                    retries: 0,
                    ..v
                };
                assert(all_in(w.nodes, s.queues.probation));
                lemma_search(s, weight, freq, i + 1, w);
            },
            None => {
                let w = Victims { skipped: v.skipped.push(n), retries: v.retries + 1, ..v };
                lemma_search(s, weight, freq, i + 1, w);
            },
        }
    }
}

pub proof fn lemma_victims<V>(s: CacheState<V>, weight: int, freq: int)
    ensures
        forall|j: int|
            0 <= j < s.victims(weight, freq).nodes.len() ==> s.queues.probation.contains(
                #[trigger] s.victims(weight, freq).nodes[j],
            ),
{
    lemma_search(
        s,
        weight,
        freq,
        0,
        Victims {
            nodes: Seq::empty(),
            policy_weight: 0,
            freq: 0,
            skipped: Seq::empty(),
            retries: 0,
        },
    );
}

/// Evicting victims for a new entry keeps the account, if all that are let out are counted by what they
/// weigh. Whoever was in the queue is still there, or their key is without an entry.
proof fn lemma_evicted<V>(
    s: CacheState<V>,
    nodes: Seq<usize>,
    skipped: Seq<usize>,
    n: int,
    e: usize,
    t: CacheState<V>,
)
    requires
        accounted_but(s, Some(e), 0),
        s.entries.dom().contains(e),
        !s.info(e).is_admitted,
        0 <= n <= nodes.len(),
        all_in(nodes, s.queues.probation),
        lets_in(s.evicted(nodes, skipped, n).0, t, Some(e)),
        keeps_count(s, t),
    ensures
        ({
            let u = s.evicted(nodes, skipped, n).0;
            &&& accounted_but(u, Some(e), 0)
            &&& only_shrinks(s, u)
            &&& lets_in(s, u, None)
            &&& u.info(e) == s.info(e)
            &&& u.entries.dom().contains(e)
            &&& u.counters.weighted_size <= s.counters.weighted_size
            &&& u.counters.entry_count <= s.counters.entry_count
            &&& forall|y: usize| #[trigger]
                s.queues.probation.contains(y) ==> u.queues.probation.contains(y) || u.find(
                    s.info(y).key_hash.key,
                ) is None
        }),
    decreases n,
{
    if n > 0 {
        let (u, sk) = s.evicted(nodes, skipped, n - 1);
        let v = nodes[n - 1];
        let key = u.info(v).key_hash.key;
        let after = s.evicted(nodes, skipped, n).0;
        assert(lets_in(u, t, Some(e))) by {
            assert forall|x: usize| (#[trigger] t.info(x)).is_admitted implies u.info(x).is_admitted
                || Some(x) == Some(e) by {
                assert(after.info(x).is_admitted ==> u.info(x).is_admitted);
            }
        }
        lemma_evicted(s, nodes, skipped, n - 1, e, t);
        assert(s.queues.probation.contains(v));
        assert(u.info(v).key_hash == s.info(v).key_hash);
        match u.find(key) {
            Some(x) => {
                assert(u.queues.probation.contains(v));
                assert(u.cache.dom().contains(key));
                assert(u.info(x).key_hash.key == key);
                assert(!u.queues.probation.contains(e));
                if x == v {
                    assert(u.in_cache(v));
                    assert(u.info(v).is_admitted);
                    assert(s.info(v).is_admitted);
                    assert(!after.info(v).is_admitted);
                    assert(!t.info(v).is_admitted);
                    assert(u.info(v).policy_weight == s.info(v).policy_weight);
                    lemma_member_removed(u, Some(e), v);
                    lemma_unlinked(u.queues.probation, v);
                } else {
                    assert(!u.in_cache(v));
                    lemma_replacement_is_out(u, Some(e), v);
                    lemma_key_lost(u, Some(e), key);
                    assert(after == u.without_key(key));
                }
                lemma_shrinks_both(s, u, after);
            },
            None => {},
        }
    }
}

proof fn lemma_shrinks_both<V>(a: CacheState<V>, b: CacheState<V>, c: CacheState<V>)
    requires
        only_shrinks(a, b),
        only_shrinks(b, c),
    ensures
        only_shrinks(a, c),
{
    assert forall|x: usize|
        #![trigger c.info(x)]
        c.info(x).key_hash == a.info(x).key_hash && c.info(x).last_modified == a.info(x).last_modified
            && c.info(x).policy_weight == a.info(x).policy_weight by {
        assert(b.info(x).key_hash == a.info(x).key_hash);
    }
    assert forall|k: u64| #[trigger] c.cache.dom().contains(k) implies a.cache.dom().contains(k) && c.cache[k]
        == a.cache[k] by {
        assert(b.cache.dom().contains(k));
    }
}

/// A new entry is shown to the policies.
proof fn lemma_upserted_new<V>(
    s: CacheState<V>,
    key: u64,
    hash: u64,
    e: usize,
    old_weight: u32,
    weight: u32,
)
    requires
        accounted_but(s, Some(e), 0),
        s.entries.dom().contains(e),
        !s.info(e).is_admitted,
        s.info(e).key_hash.key == key,
        s.info(e).last_modified@ is Some,
        counted_weight(s.writes, e, s.info(e).policy_weight) == weight,
        s.in_cache(e) || removal_waits(s.writes, e) || s.find(key) is None,
        replaces_none(s, e),
        s.counters.weighted_size + weight <= u64::MAX,
        s.counters.entry_count < u64::MAX,
        keeps_count(s, s.upserted(key, hash, e, old_weight, weight)),
        s.upserted(key, hash, e, old_weight, weight).info(e).is_admitted ==> s.in_cache(e)
            || removal_waits(s.writes, e),
    ensures
        balanced(s.upserted(key, hash, e, old_weight, weight)),
        s.upserted(key, hash, e, old_weight, weight).counters.weighted_size
            <= s.counters.weighted_size + weight,
        s.upserted(key, hash, e, old_weight, weight).counters.entry_count
            <= s.counters.entry_count + 1,
{
    let t = s.upserted(key, hash, e, old_weight, weight);
    if s.has_room_for(weight) {
        lemma_admitted(s, e, weight);
    } else if weight > s.max_capacity->0 {
        lemma_rejected(s, e, key);
    } else {
        let freq = s.sketch.frequency(hash) as int;
        let v = s.victims(weight as int, freq);
        lemma_victims(s, weight as int, freq);
        if v.policy_weight >= weight && freq > v.freq {
            let n = v.nodes.len() as int;
            let (s1, skipped) = s.evicted(v.nodes, v.skipped, n);
            let s2 = s1.admitted(e, weight);
            s2.lemma_all_to_back(skipped, skipped.len() as int);
            assert(t.entries == s2.entries);
            assert(t.info(e).is_admitted);
            assert(lets_in(s1, t, Some(e)));
            lemma_evicted(s, v.nodes, v.skipped, n, e, t);
            if s.in_cache(e) {
                assert forall|j: int| 0 <= j < v.nodes.len() implies s.info(
                    #[trigger] v.nodes[j],
                ).key_hash.key != key by {
                    let y = v.nodes[j];
                    assert(s.queues.probation.contains(y));
                    if s.info(y).key_hash.key == key {
                        assert(y != e);
                        assert(removal_waits(s.writes, y));
                        let i = choose|i: int|
                            0 <= i < s.writes.len() && (#[trigger] s.writes[i]) is Remove
                                && s.writes[i]->Remove_entry == y;
                        assert(s.find(s.info(s.writes[i]->Remove_entry).key_hash.key) != Some(e));
                    }
                }
                lemma_candidate_stays(s, v.nodes, v.skipped, n, e);
            }
            assert(replaces_none(s1, e)) by {
                assert forall|i: int| 0 <= i < s1.writes.len() && (#[trigger] s1.writes[i]) is Remove implies s1.find(
                    s1.info(s1.writes[i]->Remove_entry).key_hash.key,
                ) != Some(e) by {
                    let r = s1.writes[i]->Remove_entry;
                    let k = s1.info(r).key_hash.key;
                    assert(s.writes[i] is Remove);
                    assert(s1.info(r).key_hash == s.info(r).key_hash);
                    if s1.cache.dom().contains(k) {
                        assert(s.cache.dom().contains(k));
                    }
                }
            }
            lemma_admitted(s1, e, weight);
            lemma_all_to_back(s2, skipped, skipped.len() as int);
        } else {
            lemma_rejected(s, e, key);
            lemma_all_to_back(s.without_key(key), v.skipped, v.skipped.len() as int);
            s.without_key(key).lemma_all_to_back(v.skipped, v.skipped.len() as int);
        }
    }
}

/// An entry that is under its key is not evicted for itself.
pub proof fn lemma_candidate_stays<V>(
    s: CacheState<V>,
    nodes: Seq<usize>,
    skipped: Seq<usize>,
    n: int,
    e: usize,
)
    requires
        s.wf(),
        s.in_cache(e),
        0 <= n <= nodes.len(),
        forall|j: int| 0 <= j < nodes.len() ==> s.info(#[trigger] nodes[j]).key_hash.key != s.info(e).key_hash.key,
    ensures
        s.evicted(nodes, skipped, n).0.in_cache(e),
        forall|x: usize| #[trigger]
            s.evicted(nodes, skipped, n).0.info(x).key_hash == s.info(x).key_hash,
    decreases n,
{
    if n > 0 {
        lemma_candidate_stays(s, nodes, skipped, n - 1, e);
        let u = s.evicted(nodes, skipped, n - 1).0;
        let after = s.evicted(nodes, skipped, n).0;
        assert(u.info(nodes[n - 1]).key_hash == s.info(nodes[n - 1]).key_hash);
        assert forall|x: usize| #[trigger] after.info(x).key_hash == s.info(x).key_hash by {
            assert(u.info(x).key_hash == s.info(x).key_hash);
        }
        assert(u.info(e).key_hash == s.info(e).key_hash);
    }
}

/// A replaced value is shown to the policies.
proof fn lemma_upserted_old<V>(
    s: CacheState<V>,
    key: u64,
    hash: u64,
    e: usize,
    old_weight: u32,
    weight: u32,
)
    requires
        accounted_but(s, Some(e), old_weight - weight),
        s.entries.dom().contains(e),
        s.info(e).is_admitted,
        counted_weight(s.writes, e, s.info(e).policy_weight) == weight,
        s.in_cache(e) || removal_waits(s.writes, e),
        s.counters.weighted_size + weight <= u64::MAX,
    ensures
        balanced(s.upserted(key, hash, e, old_weight, weight)),
        s.upserted(key, hash, e, old_weight, weight).counters.weighted_size
            <= s.counters.weighted_size + weight,
        s.upserted(key, hash, e, old_weight, weight).counters.entry_count == s.counters.entry_count,
{
    let q = s.queues.probation;
    let f = counted_weights(s);
    assert(q.contains(e));
    lemma_total_unlinked(q, f, e);
    assert forall|x: usize| #[trigger] f(x) >= 0 by {}
    lemma_total_not_negative(unlinked(q, e), f);
    assert(f(e) == weight);
    let u = CacheState { counters: s.counters.subtracted(0, old_weight).added(0, weight), ..s };
    s.lemma_rest_wf(u);
    assert(only_shrinks(s, u));
    lemma_shrinks(s, u, None);
    assert(total_of(q, counted_weights(u)) == total_of(q, f));
    assert forall|x: usize| #[trigger] u.queues.probation.contains(x) implies u.info(x).last_modified@ is Some
        && (u.in_cache(x) || removal_waits(u.writes, x)) by {
        assert(q.contains(x));
        if x != e {
            assert(s.in_cache(x) || removal_waits(s.writes, x));
        }
    }
    assert forall|k: u64| #[trigger] u.cache.dom().contains(k) implies u.info(u.cache[k]).is_admitted
        || upsert_waits(u.writes, u.cache[k]) by {
        assert(s.cache.dom().contains(k));
    }
    lemma_to_back(u, None, 0, e);
    lemma_to_back(u.to_back_ao(e), None, 0, e);
}

/// A removed entry is taken out of the queue.
proof fn lemma_removed<V>(s: CacheState<V>, e: usize)
    requires
        accounted_but(s, Some(e), 0),
        s.entries.dom().contains(e),
        !s.in_cache(e),
        !upsert_waits(s.writes, e),
    ensures
        balanced(s.dismissed(e)),
        s.dismissed(e).counters.weighted_size <= s.counters.weighted_size,
        s.dismissed(e).counters.entry_count <= s.counters.entry_count,
{
    let q = s.queues.probation;
    let t = s.dismissed(e);
    let f = counted_weights(s);
    s.lemma_dismissed_wf(e);
    assert(only_shrinks(s, t));
    assert forall|x: usize| (#[trigger] t.info(x)).is_admitted && s.in_cache(x) implies t.in_cache(x) by {
        assert(t.info(x).key_hash == s.info(x).key_hash);
    }
    lemma_shrinks(s, t, None);
    if s.info(e).is_admitted {
        assert(q.contains(e));
        lemma_unlinked(q, e);
        lemma_counted_now(s.writes, e, s.info(e).policy_weight);
        lemma_total_unlinked(q, f, e);
        assert forall|x: usize| #[trigger] f(x) >= 0 by {}
        lemma_total_not_negative(unlinked(q, e), f);
        assert(f(e) == s.info(e).policy_weight);
        assert(total_of(unlinked(q, e), counted_weights(t)) == total_of(unlinked(q, e), f));
    } else {
        assert(!q.contains(e));
    }
    assert forall|x: usize| #[trigger] t.queues.probation.contains(x) implies t.info(x).last_modified@ is Some
        && (t.in_cache(x) || removal_waits(t.writes, x)) by {
        assert(q.contains(x) && x != e);
        assert(t.info(x).key_hash == s.info(x).key_hash);
    }
    assert forall|k: u64| #[trigger] t.cache.dom().contains(k) implies t.info(t.cache[k]).is_admitted
        || upsert_waits(t.writes, t.cache[k]) by {
        assert(s.cache.dom().contains(k));
        assert(s.info(s.cache[k]).key_hash.key == k);
        assert(s.cache[k] != e);
    }
}

/// Showing one of the waiting writes to the policies keeps the account, if nothing goes astray.
pub proof fn lemma_write_applied<V>(s: CacheState<V>)
    requires
        balanced(s),
        fits(s),
        s.writes.len() > 0,
        none_strays_at(s),
    ensures
        balanced(s.write_applied()),
        fits(s.write_applied()),
        s.write_applied().writes == s.writes.skip(1),
{
    lemma_popped(s);
    let p = CacheState { writes: s.writes.remove(0), ..s };
    let t = s.write_applied();
    assert(waiting_weight(s.writes) == waiting_weight(s.writes.skip(1)) + match s.writes[0] {
        WriteOp::Upsert { key, hash, entry, old_weight, new_weight } => new_weight as int,
        WriteOp::Remove { key, entry } => 0,
    });
    lemma_waiting_not_negative(s.writes.skip(1));
    match s.writes[0] {
        WriteOp::Upsert { key, hash, entry, old_weight, new_weight } => {
            p.lemma_upserted_logs(key, hash, entry, old_weight, new_weight);
            assert(counted_weight(p.writes, entry, p.info(entry).policy_weight) == new_weight);
            if s.info(entry).is_admitted {
                assert(s.queues.probation.contains(entry));
                lemma_waits_behind(s.writes, entry);
                lemma_upserted_old(p, key, hash, entry, old_weight, new_weight);
            } else {
                lemma_upserted_new(p, key, hash, entry, old_weight, new_weight);
            }
        },
        WriteOp::Remove { key, entry } => {
            lemma_removed(p, entry);
        },
    }
}

proof fn lemma_waiting_not_negative(writes: Seq<WriteOp>)
    ensures
        waiting_weight(writes) >= 0,
    decreases writes.len(),
{
    if writes.len() > 0 {
        lemma_waiting_not_negative(writes.skip(1));
    }
}

} // verus!
