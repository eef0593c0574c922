//! Powers of two.
use vstd::arithmetic::power2::{lemma2_to64, lemma2_to64_rest, lemma_pow2_strictly_increases, lemma_pow2_unfold, pow2};
use vstd::prelude::*;

verus! {

/// `r` is the smallest power of two that is not less than `n`.
pub open spec fn is_next_power_of_two(n: int, r: int) -> bool {
    exists|k: nat| r == #[trigger] pow2(k) && n <= r && (k > 0 ==> pow2((k - 1) as nat) < n)
}

/// The smallest power of two that is not less than `n`.
pub open spec fn spec_next_power_of_two(n: int) -> int {
    choose|r: int| is_next_power_of_two(n, r)
}

/// The smallest power of two that is not less than `n`.
pub fn next_power_of_two(n: u64) -> (r: u64)
    requires
        n <= 0x8000_0000_0000_0000,
    ensures
        is_next_power_of_two(n as int, r as int),
        r == spec_next_power_of_two(n as int),
        1 <= r,
{
    let mut r: u64 = 1;
    let ghost mut k: nat = 0;
    proof {
        lemma2_to64();
    }
    while r < n
        invariant
            n <= 0x8000_0000_0000_0000,
            r == pow2(k),
            1 <= r,
            k > 0 ==> pow2((k - 1) as nat) < n,
        decreases if r < n { n - r } else { 0 },
    {
        proof {
            lemma_pow2_unfold(k + 1);
            k = k + 1;
        }
        r = r * 2;
    }
    proof {
        assert(is_next_power_of_two(n as int, r as int));
        next_power_of_two_is_unique(n as int, r as int, spec_next_power_of_two(n as int));
    }
    r
}

/// There is only one smallest power of two that is not less than `n`.
pub proof fn next_power_of_two_is_unique(n: int, a: int, b: int)
    requires
        is_next_power_of_two(n, a),
        is_next_power_of_two(n, b),
    ensures
        a == b,
{
    let j = choose|j: nat| a == #[trigger] pow2(j) && n <= a && (j > 0 ==> pow2((j - 1) as nat) < n);
    let k = choose|k: nat| b == #[trigger] pow2(k) && n <= b && (k > 0 ==> pow2((k - 1) as nat) < n);
    if j < k {
        if j < k - 1 {
            lemma_pow2_strictly_increases(j, (k - 1) as nat);
        }
    } else if k < j {
        if k < j - 1 {
            lemma_pow2_strictly_increases(k, (j - 1) as nat);
        }
    }
}

/// The exponent of the smallest power of two that is not less than `n`.
pub fn next_power_of_two_exponent(n: u64) -> (r: u32)
    requires
        n <= 0x8000_0000_0000_0000,
    ensures
        is_next_power_of_two(n as int, pow2(r as nat) as int),
        r <= 63,
{
    let mut p: u64 = 1;
    let mut k: u32 = 0;
    proof {
        lemma2_to64();
    }
    while p < n
        invariant
            n <= 0x8000_0000_0000_0000,
            k <= 63,
            p == pow2(k as nat),
            1 <= p,
            k > 0 ==> pow2((k - 1) as nat) < n,
        decreases if p < n { n - p } else { 0 },
    {
        proof {
            lemma2_to64_rest();
            if k >= 63 {
                assert(k == 63);
                assert(false);
            }
            lemma_pow2_unfold((k + 1) as nat);
        }
        p = p * 2;
        k = k + 1;
    }
    k
}

} // verus!
