//! A count-min sketch of four-bit counters, which estimates how often a hash was seen.
use vstd::arithmetic::power2::{lemma2_to64, lemma_pow2_strictly_increases, lemma_pow2_unfold, pow2};
use vstd::bits::{lemma_u64_low_bits_mask_is_mod, low_bits_mask};
use vstd::prelude::*;

use crate::common::math::{
    is_next_power_of_two, next_power_of_two, next_power_of_two_is_unique, spec_next_power_of_two,
};

verus! {

/// The largest number of words of the table on any machine: 8 GiB.
pub const MAX_TABLE_LEN: u32 = 0x4000_0000;

/// The largest number of words of the table on a machine with addresses of 32 bits: 128 MiB.
pub const MAX_TABLE_LEN_32: u32 = 0x100_0000;

/// The largest number of words of the table on this machine.
pub open spec fn max_table_len() -> u32 {
    if usize::BITS == 32 {
        MAX_TABLE_LEN_32
    } else {
        MAX_TABLE_LEN
    }
}

/// The low three bits of every counter.
pub const RESET_MASK: u64 = 0x7777_7777_7777_7777;

/// The seed of one of the four rows of counters.
pub open spec fn seed(row: int) -> u64 {
    if row == 0 {
        0xc3a5_c85c_97cb_3127
    } else if row == 1 {
        0xb492_b66f_be98_f273
    } else if row == 2 {
        0x9ae1_6a3b_2f90_404f
    } else {
        0xcbf2_9ce4_8422_2325
    }
}

fn seeds(row: u64) -> (r: u64)
    requires
        row < 4,
    ensures
        r == seed(row as int),
{
    match row {
        0 => 0xc3a5_c85c_97cb_3127,
        1 => 0xb492_b66f_be98_f273,
        2 => 0x9ae1_6a3b_2f90_404f,
        _ => 0xcbf2_9ce4_8422_2325,
    }
}

/// The table of counters, sixteen to a word, with the number of increments since the
/// counters were last halved and the number at which they are halved next.
pub struct SketchState {
    pub table: Seq<u64>,
    pub sample_size: u32,
    pub size: u32,
}

/// One of the sixteen counters of a word.
pub open spec fn counter(word: u64, c: u64) -> u64 {
    (word >> (4 * c) as u64) & 0xF
}

/// The word with one of its counters a step higher, unless that counter is full.
pub open spec fn raised(word: u64, c: u64) -> u64 {
    if counter(word, c) == 15 {
        word
    } else {
        (word + (1u64 << (4 * c) as u64)) as u64
    }
}

/// The spread of a hash for a row.
pub open spec fn spread(hash: u64, row: int) -> u64 {
    let h = ((hash as int + seed(row)) % 0x1_0000_0000_0000_0000 * seed(row)
        % 0x1_0000_0000_0000_0000) as u64;
    ((h as int + (h >> 32)) % 0x1_0000_0000_0000_0000) as u64
}

/// The word of a row's counter for a hash, in a table of `len` words.
pub open spec fn word_of(hash: u64, row: int, len: int) -> int {
    spread(hash, row) as int % len
}

/// Which of the counters of its word is a row's counter for a hash.
pub open spec fn counter_of(hash: u64, row: int) -> u64 {
    ((hash as int % 4) * 4 + row) as u64
}

impl SketchState {
    /// The counter of a row for a hash.
    pub open spec fn count(self, hash: u64, row: int) -> u64 {
        counter(self.table[word_of(hash, row, self.table.len() as int)], counter_of(hash, row))
    }

    /// The estimate for a hash: the smallest of its four counters.
    pub open spec fn frequency(self, hash: u64) -> u64 {
        if self.table.len() == 0 {
            0
        } else {
            let a = self.count(hash, 0);
            let b = self.count(hash, 1);
            let c = self.count(hash, 2);
            let d = self.count(hash, 3);
            let ab = if a <= b {
                a
            } else {
                b
            };
            let cd = if c <= d {
                c
            } else {
                d
            };
            if ab <= cd {
                ab
            } else {
                cd
            }
        }
    }

    /// The sketch with a row's counter for a hash a step higher, unless it is full.
    pub open spec fn row_raised(self, hash: u64, row: int) -> Self {
        let i = word_of(hash, row, self.table.len() as int);
        SketchState { table: self.table.update(i, raised(self.table[i], counter_of(hash, row))), ..self }
    }

    /// The sketch with the four counters for a hash a step higher, unless they are full.
    pub open spec fn all_raised(self, hash: u64) -> Self {
        self.row_raised(hash, 0).row_raised(hash, 1).row_raised(hash, 2).row_raised(hash, 3)
    }

    /// The sketch with room for the estimates of `cap` hashes.
    pub open spec fn with_capacity(self, cap: u32) -> Self {
        let len = spec_next_power_of_two(capped_capacity(cap));
        if self.table.len() >= len {
            self
        } else {
            SketchState {
                table: Seq::new(len as nat, |i: int| 0u64),
                sample_size: sample_size_for(cap),
                size: 0,
            }
        }
    }

    /// The sketch with every counter halved.
    pub open spec fn halved(self) -> Self {
        let odd = odd_counters(self.table);
        let half = self.size as int / 2;
        SketchState {
            table: self.table.map_values(|w: u64| (w >> 1) & RESET_MASK),
            size: if half >= odd / 4 {
                (half - odd / 4) as u32
            } else {
                0
            },
            ..self
        }
    }

    /// The sketch after a hash was seen once more.
    pub open spec fn incremented(self, hash: u64) -> Self {
        if self.table.len() == 0 || self.frequency(hash) == 15 {
            self
        } else {
            let more = SketchState { size: (self.size + 1) as u32, ..self.all_raised(hash) };
            if more.size >= more.sample_size {
                more.halved()
            } else {
                more
            }
        }
    }
}

/// The number of odd counters of a word.
pub open spec fn odd_in_word(word: u64) -> int {
    odd_below(word, 16)
}

/// The number of odd counters among the first `n` of a word.
pub open spec fn odd_below(word: u64, n: nat) -> int
    decreases n,
{
    if n == 0 {
        0
    } else {
        odd_below(word, (n - 1) as nat) + counter(word, (n - 1) as u64) % 2
    }
}

/// The number of odd counters of a table.
pub open spec fn odd_counters(table: Seq<u64>) -> int
    decreases table.len(),
{
    if table.len() == 0 {
        0
    } else {
        odd_counters(table.drop_last()) + odd_in_word(table.last())
    }
}

/// A sketch that estimates how often a hash was seen, up to fifteen times.
pub struct FrequencySketch {
    sample_size: u32,
    table_mask: u64,
    table: Vec<u64>,
    size: u32,
}

impl Default for FrequencySketch {
    /// A sketch without counters. It counts nothing until it is given a capacity.
    fn default() -> (r: Self)
        ensures
            r.wf(),
            r@ == (SketchState { table: Seq::empty(), sample_size: 0, size: 0 }),
    {
        let r = FrequencySketch { sample_size: 0, table_mask: 0, table: Vec::new(), size: 0 };
        assert(r@.table =~= Seq::empty());
        r
    }
}

impl FrequencySketch {
    pub closed spec fn view(&self) -> SketchState {
        SketchState { table: self.table@, sample_size: self.sample_size, size: self.size }
    }

    /// The table is empty, or its length is a power of two and the mask is one less.
    pub closed spec fn wf(&self) -> bool {
        &&& self.table@.len() <= MAX_TABLE_LEN
        &&& self.table@.len() > 0 ==> {
            &&& self.table_mask == self.table@.len() - 1
            &&& is_next_power_of_two(self.table@.len() as int, self.table@.len() as int)
            &&& self.size < self.sample_size <= 0x7FFF_FFFF
        }
    }
}

proof fn lemma_mask(h: u64, len: u64)
    requires
        0 < len <= MAX_TABLE_LEN,
        is_next_power_of_two(len as int, len as int),
    ensures
        h & (len - 1) as u64 == h % len,
{
    let k = choose|k: nat| len == #[trigger] pow2(k);
    lemma2_to64();
    if k >= 64 {
        lemma_pow2_strictly_increases(30, k);
    }
    lemma_u64_low_bits_mask_is_mod(h, k);
    assert(low_bits_mask(k) == len - 1);
}

/// Which of the counters of its word is a row's counter for a hash.
fn counter_index(hash: u64, row: u64) -> (r: u64)
    requires
        row < 4,
    ensures
        r == counter_of(hash, row as int),
        r < 16,
{
    (hash % 4) * 4 + row
}

/// The smallest of the first counters for a hash.
spec fn smallest_below(s: SketchState, hash: u64, rows: int) -> u64
    decreases rows,
{
    if rows <= 1 {
        s.count(hash, 0)
    } else {
        let a = smallest_below(s, hash, rows - 1);
        let b = s.count(hash, rows - 1);
        if b < a {
            b
        } else {
            a
        }
    }
}

/// A counter is at most fifteen, and is full when all its bits are set.
proof fn lemma_counter(word: u64, c: u64)
    requires
        c < 16,
    ensures
        counter(word, c) <= 15,
        (word & (0xFu64 << (4 * c) as u64) == 0xFu64 << (4 * c) as u64) == (counter(word, c) == 15),
        counter(word, c) < 15 ==> word + (1u64 << (4 * c) as u64) <= u64::MAX,
{
    let o: u64 = (4 * c) as u64;
    assert((word >> o) & 0xF <= 15) by (bit_vector);
    assert(c < 16 && o == 4 * c ==> ((word & (0xFu64 << o) == 0xFu64 << o) == ((word >> o) & 0xF
        == 15))) by (bit_vector);
    assert(c < 16 && o == 4 * c && (word >> o) & 0xF < 15 ==> word + (1u64 << o)
        <= 0xFFFF_FFFF_FFFF_FFFF) by (bit_vector);
}

/// Raising one counter of a word leaves the others as they are.
proof fn lemma_raised(word: u64, c: u64, d: u64)
    requires
        c < 16,
        d < 16,
    ensures
        counter(raised(word, c), d) == if c == d && counter(word, d) < 15 {
            (counter(word, d) + 1) as u64
        } else {
            counter(word, d)
        },
{
    lemma_counter(word, c);
    if counter(word, c) < 15 {
        let o: u64 = (4 * c) as u64;
        let q: u64 = (4 * d) as u64;
        let up: u64 = (word + (1u64 << o)) as u64;
        assert(c < 16 && o == 4 * c && (word >> o) & 0xF < 15 && up == word + (1u64 << o) ==> (up >> o)
            & 0xF == ((word >> o) & 0xF) + 1) by (bit_vector);
        assert(c < 16 && d < 16 && c != d && o == 4 * c && q == 4 * d && (word >> o) & 0xF < 15 && up
            == word + (1u64 << o) ==> (up >> q) & 0xF == (word >> q) & 0xF) by (bit_vector);
    }
}

impl FrequencySketch {
    /// The estimate for a hash.
    pub fn frequency(&self, hash: u64) -> (r: u8)
        requires
            self.wf(),
        ensures
            r == self@.frequency(hash),
            r <= 15,
    {
        if self.table.len() == 0 {
            return 0;
        }
        let mut frequency: u64 = self.count_at(hash, 0);
        let mut row: u64 = 1;
        while row < 4
            invariant
                self.wf(),
                self.table@.len() > 0,
                1 <= row <= 4,
                frequency <= 15,
                frequency == smallest_below(self@, hash, row as int),
            decreases 4 - row,
        {
            let count: u64 = self.count_at(hash, row);
            if count < frequency {
                frequency = count;
            }
            row = row + 1;
        }
        reveal_with_fuel(smallest_below, 5);
        assert(smallest_below(self@, hash, 4) == self@.frequency(hash));
        frequency as u8
    }

    /// The counter of a row for a hash.
    fn count_at(&self, hash: u64, row: u64) -> (r: u64)
        requires
            self.wf(),
            self.table@.len() > 0,
            row < 4,
        ensures
            r == self@.count(hash, row as int),
            r <= 15,
    {
        let index: usize = self.index_of(hash, row);
        let c: u64 = counter_index(hash, row);
        proof {
            lemma_counter(self.table@[index as int], c);
        }
        (self.table[index] >> (4 * c)) & 0xF
    }

    fn index_of(&self, hash: u64, row: u64) -> (r: usize)
        requires
            self.wf(),
            self.table@.len() > 0,
            row < 4,
        ensures
            r == word_of(hash, row as int, self.table@.len() as int),
            r < self.table@.len(),
    {
        let s: u64 = seeds(row);
        let h: u64 = hash.wrapping_add(s).wrapping_mul(s);
        let h: u64 = h.wrapping_add(h >> 32);
        proof {
            lemma_mask(h, self.table@.len() as u64);
        }
        (h & self.table_mask) as usize
    }

    /// The number of words of the table.
    pub fn table_len(&self) -> (r: usize)
        ensures
            r == self@.table.len(),
    {
        self.table.len()
    }
}

impl SketchState {
    /// Raising the counters of some rows leaves the counters of the other rows.
    proof fn lemma_row_raised(self, hash: u64, row: int, other_hash: u64, other: int)
        requires
            self.table.len() > 0,
            0 <= row < 4,
            0 <= other < 4,
        ensures
            self.row_raised(hash, row).table.len() == self.table.len(),
            self.count(other_hash, other) <= 15,
            self.row_raised(hash, row).count(other_hash, other) <= 15,
            self.row_raised(hash, row).count(other_hash, other) >= self.count(other_hash, other),
            other_hash == hash && row == other ==> self.row_raised(hash, row).count(hash, row)
                == if self.count(hash, row) < 15 {
                self.count(hash, row) + 1
            } else {
                15
            },
            other_hash == hash && row != other ==> self.row_raised(hash, row).count(hash, other)
                == self.count(hash, other),
    {
        let i = word_of(hash, row, self.table.len() as int);
        let j = word_of(other_hash, other, self.table.len() as int);
        lemma_counter(self.table[j], counter_of(other_hash, other));
        lemma_counter(self.row_raised(hash, row).table[j], counter_of(other_hash, other));
        lemma_raised(self.table[i], counter_of(hash, row), counter_of(other_hash, other));
    }
}

impl SketchState {
    /// A sketch that was just given its room has counted nothing.
    pub proof fn lemma_fresh(self, cap: u32)
        requires
            exists|s: SketchState| s.table.len() == 0 && self == #[trigger] s.with_capacity(cap),
        ensures
            self.table.len() > 0,
            forall|hash: u64| #[trigger] self.frequency(hash) == 0,
    {
        lemma2_to64();
        let n = capped_capacity(cap);
        assert(exists|r: int| is_next_power_of_two(n, r)) by {
            lemma_next_exists(n, 0);
        }
        let len = spec_next_power_of_two(n);
        assert(is_next_power_of_two(n, len));
        lemma_next_is_power(n, len);
        assert forall|hash: u64| #[trigger] self.frequency(hash) == 0 by {
            assert forall|row: int| 0 <= row < 4 implies self.count(hash, row) == 0 by {
                let c = counter_of(hash, row);
                assert(self.table[word_of(hash, row, len)] == 0);
                let o: u64 = (4 * c) as u64;
                assert((0u64 >> o) & 0xF == 0) by (bit_vector);
            }
            assert(self.count(hash, 0) == 0);
            assert(self.count(hash, 1) == 0);
            assert(self.count(hash, 2) == 0);
            assert(self.count(hash, 3) == 0);
        }
    }
}

/// There is a smallest power of two that is not less than a number.
proof fn lemma_next_exists(n: int, k: nat)
    requires
        n <= MAX_TABLE_LEN,
        k <= 30,
        k > 0 ==> pow2((k - 1) as nat) < n,
    ensures
        exists|r: int| is_next_power_of_two(n, r),
    decreases 30 - k,
{
    lemma2_to64();
    if n <= pow2(k) {
        assert(is_next_power_of_two(n, pow2(k) as int));
    } else {
        lemma_next_exists(n, k + 1);
    }
}

/// The number of odd counters of a word is at most sixteen.
proof fn lemma_odd_below(word: u64, n: nat)
    ensures
        0 <= odd_below(word, n) <= n,
    decreases n,
{
    if n > 0 {
        lemma_odd_below(word, (n - 1) as nat);
    }
}

proof fn lemma_odd_counters(table: Seq<u64>)
    ensures
        0 <= odd_counters(table) <= 16 * table.len(),
    decreases table.len(),
{
    if table.len() > 0 {
        lemma_odd_counters(table.drop_last());
        lemma_odd_below(table.last(), 16);
    }
}

fn odd_counters_of(word: u64) -> (r: u64)
    ensures
        r == odd_in_word(word),
        r <= 16,
{
    let mut n: u64 = 0;
    let mut c: u64 = 0;
    while c < 16
        invariant
            c <= 16,
            n == odd_below(word, c as nat),
            n <= c,
        decreases 16 - c,
    {
        let count: u64 = (word >> (4 * c)) & 0xF;
        n = n + count % 2;
        c = c + 1;
    }
    n
}

impl FrequencySketch {
    /// Counts a hash once more.
    pub fn increment(&mut self, hash: u64)
        requires
            old(self).wf(),
        ensures
            final(self).wf(),
            final(self)@ == old(self)@.incremented(hash),
    {
        if self.table.len() == 0 {
            return;
        }
        let ghost s0 = self@;
        let ghost s1 = s0.row_raised(hash, 0);
        let ghost s2 = s1.row_raised(hash, 1);
        let ghost s3 = s2.row_raised(hash, 2);
        let ghost s4 = s3.row_raised(hash, 3);
        proof {
            s0.lemma_row_raised(hash, 0, hash, 0);
            s0.lemma_row_raised(hash, 0, hash, 1);
            s0.lemma_row_raised(hash, 0, hash, 2);
            s0.lemma_row_raised(hash, 0, hash, 3);
            s1.lemma_row_raised(hash, 1, hash, 2);
            s1.lemma_row_raised(hash, 1, hash, 3);
            s2.lemma_row_raised(hash, 2, hash, 3);
            s3.lemma_row_raised(hash, 3, hash, 3);
        }
        let a0 = self.increment_at(hash, 0);
        let a1 = self.increment_at(hash, 1);
        let a2 = self.increment_at(hash, 2);
        let a3 = self.increment_at(hash, 3);
        assert(self@ == s4);
        assert(s4 == s0.all_raised(hash));
        if a0 || a1 || a2 || a3 {
            assert(s0.frequency(hash) < 15);
            self.size = self.size + 1;
            if self.size >= self.sample_size {
                self.reset();
            }
        } else {
            assert(s0.frequency(hash) == 15);
        }
    }

    /// Raises the counter of a row, and tells whether it was not full.
    fn increment_at(&mut self, hash: u64, row: u64) -> (r: bool)
        requires
            old(self).wf(),
            old(self)@.table.len() > 0,
            row < 4,
        ensures
            final(self).wf(),
            final(self)@ == old(self)@.row_raised(hash, row as int),
            r == (old(self)@.count(hash, row as int) < 15),
            !r ==> final(self)@ == old(self)@,
    {
        let index: usize = self.index_of(hash, row);
        let c: u64 = counter_index(hash, row);
        proof {
            lemma_counter(self.table@[index as int], c);
        }
        let offset: u64 = 4 * c;
        let mask: u64 = 0xF << offset;
        let word: u64 = self.table[index];
        if word & mask != mask {
            self.table.set(index, word + (1 << offset));
            true
        } else {
            assert(self@.row_raised(hash, row as int).table =~= self@.table);
            false
        }
    }

    /// Halves every counter.
    fn reset(&mut self)
        requires
            old(self).table@.len() > 0,
            old(self).table@.len() <= MAX_TABLE_LEN,
            old(self).table_mask == old(self).table@.len() - 1,
            is_next_power_of_two(old(self).table@.len() as int, old(self).table@.len() as int),
            0 < old(self).size <= old(self).sample_size <= 0x7FFF_FFFF,
        ensures
            final(self).wf(),
            final(self)@ == old(self)@.halved(),
    {
        let ghost table0 = self.table@;
        let mut count: u64 = 0;
        let mut i: usize = 0;
        let n: usize = self.table.len();
        while i < n
            invariant
                i <= n,
                n == self.table@.len(),
                n == table0.len(),
                n <= MAX_TABLE_LEN,
                count == odd_counters(table0.take(i as int)),
                count <= 16 * i,
                forall|j: int| 0 <= j < i ==> self.table@[j] == (table0[j] >> 1) & RESET_MASK,
                forall|j: int| i <= j < n ==> self.table@[j] == table0[j],
                self.sample_size == old(self).sample_size,
                self.size == old(self).size,
                self.table_mask == old(self).table_mask,
            decreases n - i,
        {
            let word: u64 = self.table[i];
            proof {
                assert(table0.take(i + 1).drop_last() =~= table0.take(i as int));
            }
            count = count + odd_counters_of(word);
            self.table.set(i, (word >> 1) & RESET_MASK);
            i = i + 1;
        }
        proof {
            assert(table0.take(n as int) =~= table0);
            assert(self.table@ =~= table0.map_values(|w: u64| (w >> 1) & RESET_MASK));
        }
        let size: u32 = self.size;
        let half: u64 = (size >> 1) as u64;
        assert(size >> 1 == size / 2) by (bit_vector);
        let quarter: u64 = count >> 2;
        assert(count >> 2 == count / 4) by (bit_vector);
        self.size = half.saturating_sub(quarter) as u32;
    }

    /// Makes room for the estimates of `cap` hashes. What was counted so far is forgotten,
    /// unless there is room enough already.
    pub fn ensure_capacity(&mut self, cap: u32)
        requires
            old(self).wf(),
        ensures
            final(self).wf(),
            final(self)@ == old(self)@.with_capacity(cap),
    {
        let table_size: u64 = table_len_for(cap);
        proof {
            lemma_next_is_power(capped_capacity(cap), table_size as int);
        }
        if self.table.len() as u64 >= table_size {
            return;
        }
        self.table = vec![0; table_size as usize];
        assert(self.table@ =~= Seq::new(table_size as nat, |i: int| 0u64));
        self.table_mask = table_size - 1;
        self.sample_size = if cap == 0 {
            10
        } else {
            let sample: u64 = cap as u64 * 10;
            if sample <= 0x7FFF_FFFF {
                sample as u32
            } else {
                0x7FFF_FFFF
            }
        };
        self.size = 0;
    }
}

/// The capacity that a table is made for.
pub open spec fn capped_capacity(cap: u32) -> int {
    if cap == 0 {
        1
    } else if cap <= max_table_len() {
        cap as int
    } else {
        max_table_len() as int
    }
}

/// The number of words of a table that is made for a capacity.
pub fn table_len_for(cap: u32) -> (r: u64)
    ensures
        is_next_power_of_two(capped_capacity(cap), r as int),
        r == spec_next_power_of_two(capped_capacity(cap)),
        1 <= r <= max_table_len(),
{
    let maximum: u32 = if usize::BITS == 32 {
        MAX_TABLE_LEN_32
    } else {
        MAX_TABLE_LEN
    };
    proof {
        lemma2_to64();
        assert(1 == pow2(0));
        assert(is_next_power_of_two(1, 1));
        next_power_of_two_is_unique(1, 1, spec_next_power_of_two(1));
    }
    if cap == 0 {
        return 1;
    }
    let capped: u32 = if cap <= maximum {
        cap
    } else {
        maximum
    };
    let r: u64 = next_power_of_two(capped as u64);
    proof {
        lemma_next_is_power(capped as int, r as int);
        if usize::BITS == 32 {
            lemma_next_is_low(capped as int, r as int, 24);
        }
    }
    r
}

/// The next power of two is no larger than a power of two that is not less than the number.
proof fn lemma_next_is_low(n: int, r: int, m: nat)
    requires
        is_next_power_of_two(n, r),
        n <= pow2(m),
    ensures
        r <= pow2(m),
{
    let k = choose|k: nat| r == #[trigger] pow2(k) && n <= r && (k > 0 ==> pow2((k - 1) as nat) < n);
    if k > m {
        if k - 1 > m {
            lemma_pow2_strictly_increases(m, (k - 1) as nat);
        }
    } else if k < m {
        lemma_pow2_strictly_increases(k, m);
    }
}

/// The number of increments after which the counters are halved.
pub open spec fn sample_size_for(cap: u32) -> u32 {
    if cap == 0 {
        10
    } else if cap * 10 <= 0x7FFF_FFFF {
        (cap * 10) as u32
    } else {
        0x7FFF_FFFF
    }
}

proof fn lemma_next_is_power(n: int, r: int)
    requires
        1 <= n <= MAX_TABLE_LEN,
        is_next_power_of_two(n, r),
    ensures
        is_next_power_of_two(r, r),
        1 <= r <= MAX_TABLE_LEN,
{
    lemma2_to64();
    let k = choose|k: nat| r == #[trigger] pow2(k) && n <= r && (k > 0 ==> pow2((k - 1) as nat) < n);
    if k > 30 {
        if k > 31 {
            lemma_pow2_strictly_increases(30, (k - 1) as nat);
        }
    } else if k < 30 {
        lemma_pow2_strictly_increases(k, 30);
    }
    if k > 0 {
        lemma_pow2_strictly_increases((k - 1) as nat, k);
    }
    assert(r == pow2(k));
}

/// No estimate is more than fifteen.
pub proof fn frequency_is_capped(s: SketchState, hash: u64)
    ensures
        s.frequency(hash) <= 15,
{
    if s.table.len() > 0 {
        s.lemma_row_raised(hash, 0, hash, 0);
        s.lemma_row_raised(hash, 0, hash, 1);
        s.lemma_row_raised(hash, 0, hash, 2);
        s.lemma_row_raised(hash, 0, hash, 3);
    }
}

/// Between two halvings, counting a hash raises its estimate by one, until it is fifteen,
/// and lowers the estimate of no hash.
pub proof fn increment_raises_estimate(s: SketchState, hash: u64, other: u64)
    requires
        s.table.len() > 0,
        s.size + 1 < s.sample_size,
    ensures
        s.incremented(hash).frequency(hash) == if s.frequency(hash) < 15 {
            s.frequency(hash) + 1
        } else {
            15
        },
        s.incremented(hash).frequency(other) >= s.frequency(other),
{
    frequency_is_capped(s, hash);
    let s1 = s.row_raised(hash, 0);
    let s2 = s1.row_raised(hash, 1);
    let s3 = s2.row_raised(hash, 2);
    let s4 = s3.row_raised(hash, 3);
    lemma_four_rows(s, hash, hash);
    lemma_four_rows(s, hash, other);
    assert(s4 == s.all_raised(hash));
    let more = SketchState { size: (s.size + 1) as u32, ..s4 };
    assert(more.count(hash, 0) == s4.count(hash, 0));
    assert(more.frequency(hash) == s4.frequency(hash));
    assert(more.frequency(other) == s4.frequency(other));
    s.lemma_row_raised(hash, 0, hash, 0);
    s.lemma_row_raised(hash, 0, hash, 1);
    s.lemma_row_raised(hash, 0, hash, 2);
    s.lemma_row_raised(hash, 0, hash, 3);
    s1.lemma_row_raised(hash, 1, hash, 0);
    s1.lemma_row_raised(hash, 1, hash, 1);
    s1.lemma_row_raised(hash, 1, hash, 2);
    s1.lemma_row_raised(hash, 1, hash, 3);
    s2.lemma_row_raised(hash, 2, hash, 0);
    s2.lemma_row_raised(hash, 2, hash, 1);
    s2.lemma_row_raised(hash, 2, hash, 2);
    s2.lemma_row_raised(hash, 2, hash, 3);
    s3.lemma_row_raised(hash, 3, hash, 0);
    s3.lemma_row_raised(hash, 3, hash, 1);
    s3.lemma_row_raised(hash, 3, hash, 2);
    s3.lemma_row_raised(hash, 3, hash, 3);
}

proof fn lemma_four_rows(s: SketchState, hash: u64, other: u64)
    requires
        s.table.len() > 0,
    ensures
        forall|row: int|
            0 <= row < 4 ==> #[trigger] s.all_raised(hash).count(other, row) >= s.count(other, row),
        s.all_raised(hash).table.len() == s.table.len(),
{
    let s1 = s.row_raised(hash, 0);
    let s2 = s1.row_raised(hash, 1);
    let s3 = s2.row_raised(hash, 2);
    assert forall|row: int| 0 <= row < 4 implies #[trigger] s.all_raised(hash).count(other, row)
        >= s.count(other, row) by {
        s.lemma_row_raised(hash, 0, other, row);
        s1.lemma_row_raised(hash, 1, other, row);
        s2.lemma_row_raised(hash, 2, other, row);
        s3.lemma_row_raised(hash, 3, other, row);
    }
    s.lemma_row_raised(hash, 0, other, 0);
    s1.lemma_row_raised(hash, 1, other, 0);
    s2.lemma_row_raised(hash, 2, other, 0);
    s3.lemma_row_raised(hash, 3, other, 0);
}

proof fn lemma_half(word: u64, c: u64)
    requires
        c < 16,
    ensures
        counter((word >> 1) & RESET_MASK, c) == counter(word, c) / 2,
        counter(word, c) % 2 <= 1,
{
    let o: u64 = (4 * c) as u64;
    assert(c < 16 && o == 4 * c ==> (((word >> 1) & 0x7777_7777_7777_7777) >> o) & 0xF == ((word >> o) & 0xF)
        / 2) by (bit_vector);
}

/// When the counters are halved, every estimate is halved, and rounded down.
pub proof fn halving_halves_estimates(s: SketchState, hash: u64)
    ensures
        s.halved().frequency(hash) == s.frequency(hash) / 2,
        s.halved().table.len() == s.table.len(),
        s.halved().sample_size == s.sample_size,
{
    if s.table.len() > 0 {
        assert forall|row: int| 0 <= row < 4 implies #[trigger] s.halved().count(hash, row) == s.count(hash, row)
            / 2 by {
            let i = word_of(hash, row, s.table.len() as int);
            lemma_half(s.table[i], counter_of(hash, row));
        }
        assert(s.halved().count(hash, 0) == s.count(hash, 0) / 2);
        assert(s.halved().count(hash, 1) == s.count(hash, 1) / 2);
        assert(s.halved().count(hash, 2) == s.count(hash, 2) / 2);
        assert(s.halved().count(hash, 3) == s.count(hash, 3) / 2);
    }
}

/// What the first `n` counters of a word have counted together.
pub open spec fn counted_below(word: u64, n: nat) -> int
    decreases n,
{
    if n == 0 {
        0
    } else {
        counted_below(word, (n - 1) as nat) + counter(word, (n - 1) as u64)
    }
}

/// What all counters of a table have counted together.
pub open spec fn counted_in(table: Seq<u64>) -> int
    decreases table.len(),
{
    if table.len() == 0 {
        0
    } else {
        counted_in(table.drop_last()) + counted_below(table.last(), 16)
    }
}

proof fn lemma_half_below(word: u64, n: nat)
    requires
        n <= 16,
    ensures
        counted_below(word, n) == 2 * counted_below((word >> 1) & RESET_MASK, n) + odd_below(word, n),
    decreases n,
{
    if n > 0 {
        lemma_half_below(word, (n - 1) as nat);
        lemma_half(word, (n - 1) as u64);
    }
}

proof fn lemma_half_in(table: Seq<u64>)
    ensures
        counted_in(table) == 2 * counted_in(table.map_values(|w: u64| (w >> 1) & RESET_MASK)) + odd_counters(
            table,
        ),
    decreases table.len(),
{
    let f = |w: u64| (w >> 1) & RESET_MASK;
    if table.len() > 0 {
        lemma_half_in(table.drop_last());
        lemma_half_below(table.last(), 16);
        let half = table.map_values(f);
        assert(half.drop_last() =~= table.drop_last().map_values(f));
    }
}

/// What is lost in halving is counted: of the increments since the last time, a half is left, less one for
/// every four counters that were rounded down.
pub proof fn halving_keeps_the_balance(s: SketchState)
    ensures
        ({
            let lost = counted_in(s.table) - 2 * counted_in(s.halved().table);
            &&& 0 <= lost <= 16 * s.table.len()
            &&& s.size / 2 >= lost / 4 ==> s.halved().size == s.size / 2 - lost / 4
            &&& s.size / 2 < lost / 4 ==> s.halved().size == 0
        }),
{
    lemma_half_in(s.table);
    lemma_odd_counters(s.table);
}

/// Increments are counted, except those of a hash whose estimate is fifteen. With the one that makes a
/// sample full, the estimate of its hash is raised and then halved, as are all others.
pub proof fn full_sample_is_halved(s: SketchState, hash: u64)
    requires
        s.table.len() > 0,
        s.size < s.sample_size,
    ensures
        s.frequency(hash) == 15 ==> s.incremented(hash) == s,
        s.frequency(hash) < 15 && s.size + 1 < s.sample_size ==> s.incremented(hash).size == s.size + 1,
        s.frequency(hash) < 15 && s.size + 1 == s.sample_size ==> s.incremented(hash).frequency(hash) as int == (
        s.frequency(hash) + 1) / 2 && s.incremented(hash).size <= s.sample_size / 2,
        s.incremented(hash).table.len() == s.table.len(),
        s.incremented(hash).sample_size == s.sample_size,
{
    frequency_is_capped(s, hash);
    lemma_four_rows(s, hash, hash);
    if s.frequency(hash) < 15 {
        let more = SketchState { size: (s.size + 1) as u32, ..s.all_raised(hash) };
        let roomy = SketchState { sample_size: u32::MAX, size: 0, ..s };
        assert(roomy.frequency(hash) == s.frequency(hash)) by {
            assert(roomy.count(hash, 0) == s.count(hash, 0));
            assert(roomy.count(hash, 1) == s.count(hash, 1));
            assert(roomy.count(hash, 2) == s.count(hash, 2));
            assert(roomy.count(hash, 3) == s.count(hash, 3));
        }
        increment_raises_estimate(roomy, hash, hash);
        assert(roomy.incremented(hash).table == more.table);
        assert(more.frequency(hash) == s.frequency(hash) + 1);
        halving_halves_estimates(more, hash);
        halving_keeps_the_balance(more);
    }
}

/// Counting a hash changes no counter of another hash that is not one of its own.
pub proof fn other_counters_stay(s: SketchState, hash: u64, other: u64, row: int)
    requires
        s.table.len() > 0,
        s.size + 1 < s.sample_size,
        0 <= row < 4,
        hash % 4 != other % 4 || word_of(hash, row, s.table.len() as int) != word_of(
            other,
            row,
            s.table.len() as int,
        ),
    ensures
        s.incremented(hash).count(other, row) == s.count(other, row),
{
    let s1 = s.row_raised(hash, 0);
    let s2 = s1.row_raised(hash, 1);
    let s3 = s2.row_raised(hash, 2);
    lemma_other_row(s, hash, 0, other, row);
    lemma_other_row(s1, hash, 1, other, row);
    lemma_other_row(s2, hash, 2, other, row);
    lemma_other_row(s3, hash, 3, other, row);
}

proof fn lemma_other_row(s: SketchState, hash: u64, row: int, other_hash: u64, other: int)
    requires
        s.table.len() > 0,
        0 <= row < 4,
        0 <= other < 4,
        hash % 4 != other_hash % 4 || row != other || word_of(hash, row, s.table.len() as int) != word_of(
            other_hash,
            other,
            s.table.len() as int,
        ),
    ensures
        s.row_raised(hash, row).count(other_hash, other) == s.count(other_hash, other),
        s.row_raised(hash, row).table.len() == s.table.len(),
{
    let i = word_of(hash, row, s.table.len() as int);
    let j = word_of(other_hash, other, s.table.len() as int);
    let c = counter_of(hash, row);
    let d = counter_of(other_hash, other);
    assert(c == (hash % 4) * 4 + row);
    assert(d == (other_hash % 4) * 4 + other);
    lemma_raised(s.table[i], c, d);
}

/// A sketch gets a counter table of the smallest power of two of words that is not less than the number of
/// hashes, from one to 2^30, or to 2^24 where addresses have 32 bits. A sample is ten increments for each
/// hash, and no more than the largest `i32`. A table that is large enough already is kept, with all that
/// it has counted.
pub proof fn sketch_has_a_word_for_each_hash(s: SketchState, cap: u32)
    ensures
        ({
            let after = s.with_capacity(cap);
            let most: int = if usize::BITS == 32 { 16_777_216 } else { 1_073_741_824 };
            let n: int = if cap < 1 { 1 } else if cap < most { cap as int } else { most };
            &&& after.table.len() >= n
            &&& after != s ==> exists|k: nat|
                after.table.len() == #[trigger] pow2(k) && (k > 0 ==> pow2((k - 1) as nat) < n)
            &&& after != s ==> s.table.len() < after.table.len()
            &&& after != s ==> after.size == 0 && forall|i: int|
                0 <= i < after.table.len() ==> #[trigger] after.table[i] == 0
            &&& after != s && 1 <= cap <= 214_748_364 ==> after.sample_size == 10 * cap
            &&& after != s && cap == 0 ==> after.sample_size == 10
            &&& after != s && cap > 214_748_364 ==> after.sample_size == 2_147_483_647
            &&& s.table.len() >= 2 * n ==> after == s
        }),
{
    let n = capped_capacity(cap);
    lemma2_to64();
    assert(exists|r: int| is_next_power_of_two(n, r)) by {
        lemma_next_exists(n, 0);
    }
    let len = spec_next_power_of_two(n);
    assert(is_next_power_of_two(n, len));
    lemma_next_is_power(n, len);
    let k = choose|k: nat| len == #[trigger] pow2(k) && n <= len && (k > 0 ==> pow2((k - 1) as nat) < n);
    if k > 0 {
        lemma_pow2_unfold(k);
    }
}

/// Each row has an odd seed of its own. A hash is added to it and multiplied by it, and the upper half of
/// the product is added to the lower, all without regard to what is carried out of 64 bits; the word is what
/// is left of that over the number of words.
pub proof fn rows_spread_hashes(hash: u64, row: int, len: int, product: int)
    requires
        0 <= row < 4,
        len > 0,
        ({
            let s: int = if row == 0 {
                0xc3a5_c85c_97cb_3127
            } else if row == 1 {
                0xb492_b66f_be98_f273
            } else if row == 2 {
                0x9ae1_6a3b_2f90_404f
            } else {
                0xcbf2_9ce4_8422_2325
            };
            product == ((hash + s) % 0x1_0000_0000_0000_0000 * s) % 0x1_0000_0000_0000_0000
        }),
    ensures
        0 <= word_of(hash, row, len) < len,
        word_of(hash, row, len) == (product + product / 0x1_0000_0000) % 0x1_0000_0000_0000_0000 % len,
        seed(row) % 2 == 1,
        forall|other: int| 0 <= other < 4 && other != row ==> #[trigger] seed(other) != seed(row),
{
    vstd::arithmetic::div_mod::lemma_mod_bound(spread(hash, row) as int, len);
    let h: u64 = product as u64;
    assert(h >> 32 == h / 0x1_0000_0000) by (bit_vector);
}

/// The counters of a hash are four of the sixteen of a word, one for each row; which four depends on what
/// is left of the hash over four.
pub proof fn rows_have_their_counters(a: u64, b: u64, i: int, j: int)
    requires
        0 <= i < 4,
        0 <= j < 4,
    ensures
        0 <= counter_of(a, i) < 16,
        counter_of(a, i) == counter_of(b, j) <==> i == j && a % 4 == b % 4,
        counter_of(a, i) == 4 * (a % 4) + i,
{
}

} // verus!
