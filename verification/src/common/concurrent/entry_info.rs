//! What the cache policies know of one entry.
use vstd::prelude::*;

use super::KeyHash;
use crate::common::time::{AtomicInstant, Instant};

verus! {

/// The number of expiry generations. Generations count from zero up to it and then wrap around.
pub const EXPIRY_GENERATIONS: u64 = 4096;

/// The low bits of a packed expiration state: the expiry generation.
pub const GEN_MASK: u64 = 0xFFF;

/// The high bits of a packed expiration state: the expiration time. All of them set: no
/// expiration time.
pub const TIME_MASK: u64 = 0xFFFF_FFFF_FFFF_F000;

/// What the cache policies know of one entry.
///
/// `is_admitted` tells that the entry has a node in the queues. `is_retired` tells that
/// the entry was removed from the hash table; it is never cleared. `entry_gen` counts the
/// updates of the entry in the hash table, `policy_gen` those that the policies have seen.
///
/// `expiration_state` packs the expiration time, cut to a multiple of
/// [`EXPIRY_GENERATIONS`] nanoseconds, and the generation of that time, which takes the
/// place of the nanoseconds that were cut off.
#[derive(Debug)]
pub struct EntryInfo<K> {
    pub key_hash: KeyHash<K>,
    pub is_admitted: bool,
    pub is_retired: bool,
    pub entry_gen: u16,
    pub policy_gen: u16,
    pub expiration_state: u64,
    pub last_accessed: AtomicInstant,
    pub last_modified: AtomicInstant,
    pub policy_weight: u32,
}

/// The expiration time in a packed state.
pub open spec fn unpacked_time(packed: u64) -> Option<Instant> {
    if packed >= TIME_MASK {
        None
    } else {
        Some(Instant { nanos: (packed - packed % EXPIRY_GENERATIONS) as u64 })
    }
}

/// The expiry generation in a packed state.
pub open spec fn unpacked_gen(packed: u64) -> u32 {
    (packed % EXPIRY_GENERATIONS) as u32
}

/// The expiration time that is kept of `time`: cut to a multiple of
/// [`EXPIRY_GENERATIONS`] nanoseconds, and kept below the bits that stand for "none".
pub open spec fn kept_time(time: Option<Instant>) -> Option<Instant> {
    match time {
        None => None,
        Some(t) => Some(
            Instant {
                nanos: if t.nanos >= TIME_MASK {
                    (TIME_MASK - EXPIRY_GENERATIONS) as u64
                } else {
                    (t.nanos - t.nanos % EXPIRY_GENERATIONS) as u64
                },
            },
        ),
    }
}

/// Whether a policy generation of `current` gives way to `value`: it is larger, and not so
/// much larger that it must have been counted before a wrap-around.
pub open spec fn is_newer_gen(current: u16, value: u16) -> bool {
    current < value && value - current <= u16::MAX / 2
}

proof fn lemma_masks(packed: u64)
    ensures
        packed & GEN_MASK == packed % EXPIRY_GENERATIONS,
        packed & TIME_MASK == packed - packed % EXPIRY_GENERATIONS,
        (packed & TIME_MASK == TIME_MASK) == (packed >= TIME_MASK),
        (packed & TIME_MASK) % EXPIRY_GENERATIONS == 0,
        packed & TIME_MASK <= TIME_MASK,
{
    assert(packed & 0xFFFu64 == packed % 4096) by (bit_vector);
    assert(packed & 0xFFFF_FFFF_FFFF_F000u64 == packed - packed % 4096) by (bit_vector);
    assert((packed & 0xFFFF_FFFF_FFFF_F000u64 == 0xFFFF_FFFF_FFFF_F000u64) == (packed
        >= 0xFFFF_FFFF_FFFF_F000u64)) by (bit_vector);
    assert((packed & 0xFFFF_FFFF_FFFF_F000u64) % 4096 == 0) by (bit_vector);
    assert(packed & 0xFFFF_FFFF_FFFF_F000u64 <= 0xFFFF_FFFF_FFFF_F000u64) by (bit_vector);
}

proof fn lemma_pack(time: u64, gen: u64)
    requires
        time % EXPIRY_GENERATIONS == 0,
        gen < EXPIRY_GENERATIONS,
    ensures
        time | gen == time + gen,
        (time | gen) % EXPIRY_GENERATIONS == gen,
{
    assert(time % 4096 == 0 && gen < 4096 ==> (time | gen) == time + gen) by (bit_vector);
    assert(time % 4096 == 0 && gen < 4096 ==> (time | gen) % 4096 == gen) by (bit_vector);
}

impl<K> EntryInfo<K> {
    /// The expiration time.
    pub open spec fn expiration_time(&self) -> Option<Instant> {
        unpacked_time(self.expiration_state)
    }

    /// The generation of the expiration time.
    pub open spec fn expiry_gen(&self) -> u32 {
        unpacked_gen(self.expiration_state)
    }

    /// The record of an entry that was just put into the hash table.
    pub fn new(key_hash: KeyHash<K>, timestamp: Instant, policy_weight: u32) -> (r: Self)
        ensures
            r.key_hash == key_hash,
            !r.is_admitted,
            !r.is_retired,
            r.entry_gen == 1,
            r.policy_gen == 0,
            r.expiration_time() is None,
            r.expiry_gen() == 0,
            r.last_accessed.instant == timestamp.nanos,
            r.last_modified.instant == timestamp.nanos,
            r.policy_weight == policy_weight,
    {
        EntryInfo {
            key_hash,
            is_admitted: false,
            is_retired: false,
            entry_gen: 1,
            policy_gen: 0,
            expiration_state: TIME_MASK,
            last_accessed: AtomicInstant::new(timestamp),
            last_modified: AtomicInstant::new(timestamp),
            policy_weight,
        }
    }

    pub fn key_hash(&self) -> (r: &KeyHash<K>)
        ensures
            *r == self.key_hash,
    {
        &self.key_hash
    }

    pub fn is_admitted(&self) -> (r: bool)
        ensures
            r == self.is_admitted,
    {
        self.is_admitted
    }

    pub fn set_admitted(&mut self, value: bool)
        ensures
            *final(self) == (EntryInfo { is_admitted: value, ..*old(self) }),
    {
        self.is_admitted = value;
    }

    /// Whether the entry was removed from the hash table.
    pub fn is_retired(&self) -> (r: bool)
        ensures
            r == self.is_retired,
    {
        self.is_retired
    }

    /// Whether the entry is still in the hash table.
    pub fn is_alive(&self) -> (r: bool)
        ensures
            r == !self.is_retired,
    {
        !self.is_retired()
    }

    /// Records that the entry was removed from the hash table. This happens at most once.
    pub fn retire(&mut self)
        requires
            !old(self).is_retired,
        ensures
            *final(self) == (EntryInfo { is_retired: true, ..*old(self) }),
    {
        self.is_retired = true;
    }

    /// Whether the entry was updated in the hash table and the policies do not know yet.
    pub fn is_dirty(&self) -> (r: bool)
        ensures
            r == (self.entry_gen != self.policy_gen),
    {
        self.entry_gen != self.policy_gen
    }

    pub fn entry_gen(&self) -> (r: u16)
        ensures
            r == self.entry_gen,
    {
        self.entry_gen
    }

    /// Counts one more update of the entry, and returns the new generation.
    pub fn incr_entry_gen(&mut self) -> (r: u16)
        ensures
            r as int == (old(self).entry_gen + 1) % 65536,
            *final(self) == (EntryInfo { entry_gen: r, ..*old(self) }),
    {
        self.entry_gen = self.entry_gen.wrapping_add(1);
        self.entry_gen
    }

    /// Records that the policies have seen the update of generation `value`, unless they
    /// have seen a later one.
    pub fn set_policy_gen(&mut self, value: u16)
        ensures
            *final(self) == if is_newer_gen(old(self).policy_gen, value) {
                EntryInfo { policy_gen: value, ..*old(self) }
            } else {
                *old(self)
            },
    {
        let current: u16 = self.policy_gen;
        if current >= value || value.wrapping_sub(current) > u16::MAX / 2 {
            return;
        }
        self.policy_gen = value;
    }

    pub fn policy_weight(&self) -> (r: u32)
        ensures
            r == self.policy_weight,
    {
        self.policy_weight
    }

    pub fn set_policy_weight(&mut self, size: u32)
        ensures
            *final(self) == (EntryInfo { policy_weight: size, ..*old(self) }),
    {
        self.policy_weight = size;
    }

    /// The expiration time and its generation.
    pub fn expiration_state(&self) -> (r: (Option<Instant>, u32))
        ensures
            r == (self.expiration_time(), self.expiry_gen()),
    {
        let packed: u64 = self.expiration_state;
        proof {
            lemma_masks(packed);
        }
        let time_nanos: u64 = packed & TIME_MASK;
        let gen: u32 = (packed & GEN_MASK) as u32;
        if time_nanos == TIME_MASK {
            (None, gen)
        } else {
            (Some(Instant::from_nanos(time_nanos)), gen)
        }
    }

    /// Replaces the expiration time, and returns the generation of the new one.
    pub fn set_expiration_time(&mut self, time: Option<Instant>) -> (r: u32)
        ensures
            r as int == (old(self).expiry_gen() + 1) % 4096,
            final(self).expiry_gen() == r,
            final(self).expiration_time() == kept_time(time),
            *final(self) == (EntryInfo { expiration_state: final(self).expiration_state, ..*old(self) }),
    {
        let prev_packed: u64 = self.expiration_state;
        proof {
            lemma_masks(prev_packed);
        }
        let prev_gen: u32 = (prev_packed & GEN_MASK) as u32;
        let next: u32 = prev_gen + 1;
        let new_gen: u32 = next & 0xFFF;
        assert(next & 0xFFF == next % 4096) by (bit_vector);
        let new_packed: u64 = match time {
            Some(t) => {
                proof {
                    lemma_masks(t.nanos);
                }
                let mut nanos: u64 = t.as_nanos() & TIME_MASK;
                if nanos == TIME_MASK {
                    nanos = TIME_MASK - 0x1000;
                }
                proof {
                    lemma_pack(nanos, new_gen as u64);
                }
                nanos | (new_gen as u64)
            },
            None => {
                proof {
                    lemma_pack(TIME_MASK, new_gen as u64);
                }
                TIME_MASK | (new_gen as u64)
            },
        };
        self.expiration_state = new_packed;
        new_gen
    }

    pub fn last_accessed(&self) -> (r: Option<Instant>)
        ensures
            r == self.last_accessed@,
    {
        self.last_accessed.instant()
    }

    pub fn set_last_accessed(&mut self, timestamp: Instant)
        ensures
            *final(self) == (EntryInfo {
                last_accessed: AtomicInstant { instant: timestamp.nanos },
                ..*old(self)
            }),
    {
        self.last_accessed.set_instant(timestamp);
    }

    pub fn last_modified(&self) -> (r: Option<Instant>)
        ensures
            r == self.last_modified@,
    {
        self.last_modified.instant()
    }

    pub fn set_last_modified(&mut self, timestamp: Instant)
        ensures
            *final(self) == (EntryInfo {
                last_modified: AtomicInstant { instant: timestamp.nanos },
                ..*old(self)
            }),
    {
        self.last_modified.set_instant(timestamp);
    }
}

/// An expiration time is kept to within 4096 nanoseconds, and never later than it is, unless it is among
/// the last 4096 nanoseconds that there are; those are kept as just before. No time is kept as none.
pub proof fn expiration_time_is_nearly_kept(t: Instant)
    ensures
        kept_time(None) is None,
        kept_time(Some(t)) is Some,
        kept_time(Some(t))->0.nanos % 4096 == 0,
        kept_time(Some(t))->0.nanos <= t.nanos,
        t.nanos < 18_446_744_073_709_547_520 ==> t.nanos - kept_time(Some(t))->0.nanos < 4096,
        t.nanos >= 18_446_744_073_709_547_520 ==> kept_time(Some(t))->0.nanos == 18_446_744_073_709_543_424,
{
}

/// A time and a generation that are packed together are both found again.
pub proof fn packed_state_is_unpacked(time: u64, gen: u64)
    requires
        time % 4096 == 0,
        gen < 4096,
        time + gen <= u64::MAX,
    ensures
        unpacked_gen((time + gen) as u64) == gen,
        time < 18_446_744_073_709_547_520 ==> unpacked_time((time + gen) as u64) == Some(
            Instant { nanos: time },
        ),
        time == 18_446_744_073_709_547_520 ==> unpacked_time((time + gen) as u64) is None,
{
}

/// A generation gives way to the next ones, up to half of all of them ahead, and to no other; no two give
/// way to each other.
pub proof fn generations_go_forward(current: u16, value: u16)
    ensures
        is_newer_gen(current, value) <==> 0 < value - current <= 32767,
        !(is_newer_gen(current, value) && is_newer_gen(value, current)),
{
}

} // verus!
