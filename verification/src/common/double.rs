//! Positive numbers of double precision: 53 significant bits, and a power of two.
//!
//! The exponents that are met here are far from the limits of the format.
use vstd::arithmetic::power2::{
    lemma2_to64, lemma2_to64_rest, lemma_pow2_adds, lemma_pow2_pos, lemma_pow2_strictly_increases, lemma_pow2_unfold,
    pow2,
};
use vstd::bits::{lemma_u64_shl_is_mul, lemma_u64_shr_is_div};
use vstd::prelude::*;

verus! {

/// The number `significand * 2^exponent`. The significand of a number that is not zero has 53 bits,
/// or is the next power of two after these.
pub struct Double {
    pub significand: nat,
    pub exponent: int,
}

/// The integer that is nearest to `num / den`; of two that are as near, the even one.
pub open spec fn nearest(num: nat, den: nat) -> nat {
    let q = num / den;
    let rest = num % den;
    if 2 * rest < den || (2 * rest == den && q % 2 == 0) {
        q
    } else {
        q + 1
    }
}

/// The double that is nearest to `num / den`: the fraction is doubled or halved until its integral
/// part has 53 bits, and is rounded then.
pub open spec fn rounded(num: nat, den: nat) -> Double
    decreases
            if num >= 0x20_0000_0000_0000 * den {
                num as int
            } else if num < 0x10_0000_0000_0000 * den {
                0x10_0000_0000_0000 * den - num
            } else {
                0
            },
            if num >= 0x20_0000_0000_0000 * den {
                num - den
            } else {
                0
            },
    when num > 0 && den > 0
{
    if num >= 0x20_0000_0000_0000 * den {
        let half = rounded(num, 2 * den);
        Double { exponent: half.exponent + 1, ..half }
    } else if num < 0x10_0000_0000_0000 * den {
        let twice = rounded(2 * num, den);
        Double { exponent: twice.exponent - 1, ..twice }
    } else {
        Double { significand: nearest(num, den), exponent: 0 }
    }
}

/// The double that is nearest to `num / den * 2^exponent`.
pub open spec fn rounded_at(num: nat, den: nat, exponent: int) -> Double {
    let r = rounded(num, den);
    if num == 0 {
        Double { significand: 0, exponent: 0 }
    } else {
        Double { exponent: r.exponent + exponent, ..r }
    }
}

impl Double {
    pub open spec fn of(n: nat) -> Self {
        rounded_at(n, 1, 0)
    }

    pub open spec fn times(self, other: Self) -> Self {
        rounded_at(self.significand * other.significand, 1, self.exponent + other.exponent)
    }

    /// The quotient of two numbers, of which the other is not zero.
    pub open spec fn over(self, other: Self) -> Self {
        rounded_at(self.significand, other.significand, self.exponent - other.exponent)
    }

    /// The integral part.
    pub open spec fn floor(self) -> nat {
        if self.exponent >= 0 {
            self.significand * pow2(self.exponent as nat)
        } else {
            self.significand / pow2((-self.exponent) as nat)
        }
    }
}

/// A double, in memory.
#[derive(Clone, Copy)]
pub struct DoubleParts {
    pub significand: u64,
    pub exponent: i32,
}

/// The significand of a number that is not zero is not zero.
proof fn lemma_rounded_positive(num: nat, den: nat)
    requires
        num > 0,
        den > 0,
    ensures
        rounded(num, den).significand >= 0x10_0000_0000_0000,
    decreases
            if num >= 0x20_0000_0000_0000 * den {
                num as int
            } else if num < 0x10_0000_0000_0000 * den {
                0x10_0000_0000_0000 * den - num
            } else {
                0
            },
            if num >= 0x20_0000_0000_0000 * den {
                num - den
            } else {
                0
            },
{
    if num >= 0x20_0000_0000_0000 * den {
        lemma_rounded_positive(num, 2 * den);
    } else if num < 0x10_0000_0000_0000 * den {
        lemma_rounded_positive(2 * num, den);
    } else {
        assert(num / den >= 0x10_0000_0000_0000) by (nonlinear_arith)
            requires
                den > 0,
                num >= 0x10_0000_0000_0000 * den,
        ;
    }
}

impl DoubleParts {
    pub open spec fn view(&self) -> Double {
        Double { significand: self.significand as nat, exponent: self.exponent as int }
    }

    /// The significand is zero, or has 53 bits, or is the next power of two.
    pub open spec fn wf(&self) -> bool {
        self.significand == 0 || 0x10_0000_0000_0000 <= self.significand <= 0x20_0000_0000_0000
    }

    /// Rounds `num / den * 2^exponent`.
    fn rounded(num: u128, den: u128, exponent: i32) -> (r: Self)
        requires
            0 < den <= 0x20_0000_0000_0000,
            num <= 0x400_0000_0000_0000_0000_0000_0000,
            -1000 <= exponent <= 1000,
        ensures
            r.wf(),
            r@ == rounded_at(num as nat, den as nat, exponent as int),
            -2000 <= r.exponent <= 2000,
            r.exponent >= exponent - 110 || num == 0,
            r.exponent <= exponent + 60 || num == 0,
    {
        if num == 0 {
            return DoubleParts { significand: 0, exponent: 0 };
        }
        let mut n: u128 = num;
        let mut d: u128 = den;
        let mut k: i32 = 0;
        proof {
            lemma2_to64();
            lemma2_to64_rest();
        }
        while n >= 0x20_0000_0000_0000 * d
            invariant
                n == num,
                0 < num <= 0x400_0000_0000_0000_0000_0000_0000,
                0 < d <= 0x40_0000_0000_0000,
                0 < den,
                0 <= k <= 54,
                pow2(k as nat) <= d,
                rounded(num as nat, den as nat).significand == rounded(n as nat, d as nat).significand,
                rounded(num as nat, den as nat).exponent == rounded(n as nat, d as nat).exponent + k,
                k > 0 ==> n >= 0x10_0000_0000_0000 * d,
            decreases 0x80_0000_0000_0000 - d,
        {
            proof {
                lemma2_to64_rest();
                lemma_pow2_unfold((k + 1) as nat);
                assert(d <= 0x20_0000_0000_0000);
                assert(k != 54);
            }
            d = d * 2;
            k = k + 1;
        }
        let ghost d0 = d;
        let ghost k0 = k;
        while n < 0x10_0000_0000_0000 * d
            invariant
                0 < num,
                0 < den,
                0 < n,
                0 < d <= 0x40_0000_0000_0000,
                n < 0x20_0000_0000_0000 * d,
                0 <= k0 <= 54,
                -107 <= k <= k0,
                k0 > 0 ==> k == k0,
                k0 > 0 ==> n >= 0x10_0000_0000_0000 * d,
                k <= 0 ==> pow2((-k) as nat) <= n,
                rounded(num as nat, den as nat).significand == rounded(n as nat, d as nat).significand,
                rounded(num as nat, den as nat).exponent == rounded(n as nat, d as nat).exponent + k,
            decreases 0x20_0000_0000_0000 * d - n,
        {
            proof {
                lemma2_to64();
                lemma2_to64_rest();
                lemma_pow2_unfold((-k + 1) as nat);
                lemma_pow2_adds(64, 43);
                assert(pow2(107) == 0x800_0000_0000_0000_0000_0000_0000);
            }
            n = n * 2;
            k = k - 1;
        }
        let q: u128 = n / d;
        let rest: u128 = n % d;
        proof {
            assert(0x10_0000_0000_0000 <= q < 0x20_0000_0000_0000) by (nonlinear_arith)
                requires
                    d > 0,
                    q == n / d,
                    0x10_0000_0000_0000 * d <= n < 0x20_0000_0000_0000 * d,
            ;
        }
        let significand: u64 = if 2 * rest < d || (2 * rest == d && q % 2 == 0) {
            q as u64
        } else {
            (q + 1) as u64
        };
        DoubleParts { significand, exponent: k + exponent }
    }

    /// The double that is nearest to an integer.
    pub fn of(n: u64) -> (r: Self)
        ensures
            r.wf(),
            r@ == Double::of(n as nat),
            -110 <= r.exponent <= 60,
            n > 0 ==> r.significand > 0,
    {
        let r = Self::rounded(n as u128, 1, 0);
        proof {
            if n > 0 {
                lemma_rounded_positive(n as nat, 1);
            }
        }
        r
    }

    pub fn times(self, other: Self) -> (r: Self)
        requires
            self.wf(),
            other.wf(),
            -400 <= self.exponent <= 400,
            -400 <= other.exponent <= 400,
        ensures
            r.wf(),
            r@ == self@.times(other@),
            -2000 <= r.exponent <= 2000,
    {
        proof {
            assert(self.significand * other.significand <= 0x400_0000_0000_0000_0000_0000_0000)
                by (nonlinear_arith)
                requires
                    0 <= self.significand <= 0x20_0000_0000_0000,
                    0 <= other.significand <= 0x20_0000_0000_0000,
            ;
            assert(self.significand * other.significand >= 0) by (nonlinear_arith);
        }
        Self::rounded(
            self.significand as u128 * other.significand as u128,
            1,
            self.exponent + other.exponent,
        )
    }

    pub fn over(self, other: Self) -> (r: Self)
        requires
            self.wf(),
            other.wf(),
            other.significand > 0,
            -400 <= self.exponent <= 110,
            -110 <= other.exponent <= 110,
        ensures
            r.wf(),
            r@ == self@.over(other@),
            -1000 <= r.exponent <= 400,
            self.exponent >= -110 ==> r.exponent >= -400,
    {
        Self::rounded(
            self.significand as u128,
            other.significand as u128,
            self.exponent - other.exponent,
        )
    }

    /// The integral part, or the largest `u64` where that is less.
    pub fn floor(self) -> (r: u64)
        requires
            self.wf(),
            -2000 <= self.exponent <= 2000,
        ensures
            r == if self@.floor() <= u64::MAX {
                self@.floor() as u64
            } else {
                u64::MAX
            },
    {
        let m: u64 = self.significand;
        proof {
            lemma2_to64();
            lemma2_to64_rest();
        }
        if m == 0 {
            assert(self@.floor() == 0) by {
                if self.exponent >= 0 {
                    assert(0 * pow2(self.exponent as nat) == 0) by (nonlinear_arith);
                } else {
                    lemma_pow2_pos((-self.exponent) as nat);
                    assert(0nat / pow2((-self.exponent) as nat) == 0) by (nonlinear_arith)
                        requires
                            pow2((-self.exponent) as nat) > 0,
                    ;
                }
            }
            return 0;
        }
        if self.exponent < 0 {
            let shift: u32 = (-self.exponent) as u32;
            if shift >= 64 {
                proof {
                    if shift > 64 {
                        lemma_pow2_strictly_increases(64, shift as nat);
                    }
                    assert(m as nat / pow2(shift as nat) == 0) by (nonlinear_arith)
                        requires
                            0 < m < pow2(shift as nat),
                    ;
                }
                return 0;
            }
            proof {
                lemma_u64_shr_is_div(m, shift as u64);
            }
            return m >> shift as u64;
        }
        let shift: u32 = self.exponent as u32;
        if shift >= 12 {
            proof {
                if shift > 12 {
                    lemma_pow2_strictly_increases(12, shift as nat);
                }
                assert(m * pow2(shift as nat) > u64::MAX) by (nonlinear_arith)
                    requires
                        m >= 0x10_0000_0000_0000,
                        pow2(shift as nat) >= 0x1000,
                ;
            }
            return u64::MAX;
        }
        let factor: u64 = 1u64 << shift as u64;
        proof {
            if shift < 12 {
                lemma_pow2_strictly_increases(shift as nat, 12);
            }
            lemma_u64_shl_is_mul(1, shift as u64);
            assert(m * factor <= 0x20_0000_0000_0000 * 0x1000) by (nonlinear_arith)
                requires
                    0 <= m <= 0x20_0000_0000_0000,
                    0 <= factor <= 0x1000,
            ;
            assert(m * factor >= 0) by (nonlinear_arith)
                requires
                    m >= 0,
                    factor >= 0,
            ;
        }
        let n: u128 = m as u128 * factor as u128;
        if n <= u64::MAX as u128 {
            n as u64
        } else {
            u64::MAX
        }
    }
}

/// The integer that is nearest to a fraction is no further from it than a half, and is even where two are
/// as near.
pub proof fn nearest_is_near(num: nat, den: nat)
    requires
        den > 0,
    ensures
        2 * num - den <= 2 * (nearest(num, den) * den) <= 2 * num + den,
        2 * (nearest(num, den) * den) == 2 * num - den || 2 * (nearest(num, den) * den) == 2 * num + den
            ==> nearest(num, den) % 2 == 0,
{
    let q = num / den;
    let rest = num % den;
    vstd::arithmetic::div_mod::lemma_fundamental_div_mod(num as int, den as int);
    vstd::arithmetic::mul::lemma_mul_is_distributive_add_other_way(den as int, q as int, 1);
    assert(den * q == q * den) by (nonlinear_arith);
    assert((q + 1) * den == q * den + den) by (nonlinear_arith);
    assert(0 <= rest < den) by {
        vstd::arithmetic::div_mod::lemma_mod_bound(num as int, den as int);
    }
}

/// A fraction is rounded to 53 bits, and no further than by a half of the last of them.
pub proof fn rounding_keeps_53_bits(num: nat, den: nat)
    requires
        num > 0,
        den > 0,
    ensures
        ({
            let r = rounded(num, den);
            &&& 0x10_0000_0000_0000 <= r.significand <= 0x20_0000_0000_0000
            &&& r.exponent >= 0 ==> ({
                let unit = pow2(r.exponent as nat) * den;
                2 * num - unit <= 2 * (r.significand * unit) <= 2 * num + unit
            })
            &&& r.exponent <= 0 ==> ({
                let n = pow2((-r.exponent) as nat) * num;
                2 * n - den <= 2 * (r.significand * den) <= 2 * n + den
            })
        }),
    decreases
            if num >= 0x20_0000_0000_0000 * den {
                num as int
            } else if num < 0x10_0000_0000_0000 * den {
                0x10_0000_0000_0000 * den - num
            } else {
                0
            },
            if num >= 0x20_0000_0000_0000 * den {
                num - den
            } else {
                0
            },
{
    lemma2_to64();
    let r = rounded(num, den);
    if num >= 0x20_0000_0000_0000 * den {
        let half = rounded(num, 2 * den);
        rounding_keeps_53_bits(num, 2 * den);
        lemma_large_is_halved(num, 2 * den);
        let e = half.exponent as nat;
        lemma_pow2_unfold(e + 1);
        assert(pow2(e) * (2 * den) == pow2(e + 1) * den) by (nonlinear_arith)
            requires
                pow2(e + 1) == 2 * pow2(e),
        ;
    } else if num < 0x10_0000_0000_0000 * den {
        let twice = rounded(2 * num, den);
        rounding_keeps_53_bits(2 * num, den);
        lemma_small_is_doubled(2 * num, den);
        let e = (-twice.exponent) as nat;
        lemma_pow2_unfold(e + 1);
        assert(pow2(e) * (2 * num) == pow2(e + 1) * num) by (nonlinear_arith)
            requires
                pow2(e + 1) == 2 * pow2(e),
        ;
    } else {
        nearest_is_near(num, den);
        lemma_nearest_range(num, den);
        assert(pow2(0) * den == den);
        assert(pow2(0) * num == num);
    }
}

proof fn lemma_nearest_range(num: nat, den: nat)
    requires
        den > 0,
        0x10_0000_0000_0000 * den <= num < 0x20_0000_0000_0000 * den,
    ensures
        0x10_0000_0000_0000 <= nearest(num, den) <= 0x20_0000_0000_0000,
{
    assert(num / den >= 0x10_0000_0000_0000) by (nonlinear_arith)
        requires
            den > 0,
            num >= 0x10_0000_0000_0000 * den,
    ;
    assert(num / den < 0x20_0000_0000_0000) by (nonlinear_arith)
        requires
            den > 0,
            num < 0x20_0000_0000_0000 * den,
    ;
}

/// Of a fraction that has 53 bits or more before the point, none is put in front.
proof fn lemma_large_is_halved(num: nat, den: nat)
    requires
        den > 0,
        num >= 0x10_0000_0000_0000 * den,
    ensures
        rounded(num, den).exponent >= 0,
    decreases num - den,
{
    if num >= 0x20_0000_0000_0000 * den {
        lemma_large_is_halved(num, 2 * den);
    }
}

/// Of a fraction that has 53 bits or fewer before the point, none is cut off.
proof fn lemma_small_is_doubled(num: nat, den: nat)
    requires
        den > 0,
        0 < num < 0x20_0000_0000_0000 * den,
    ensures
        rounded(num, den).exponent <= 0,
    decreases 0x20_0000_0000_0000 * den - num,
{
    if num < 0x10_0000_0000_0000 * den {
        lemma_small_is_doubled(2 * num, den);
    }
}

/// An integer of 53 bits or fewer is a double, and is its integral part.
pub proof fn small_integers_are_exact(n: nat)
    requires
        n < 0x20_0000_0000_0000,
    ensures
        Double::of(n).floor() == n,
        n > 0 ==> Double::of(n).exponent <= 0 && Double::of(n).significand == n * pow2(
            (-Double::of(n).exponent) as nat,
        ) && 0x10_0000_0000_0000 <= Double::of(n).significand <= 0x20_0000_0000_0000,
{
    lemma2_to64();
    if n == 0 {
        assert(0 * pow2(0) == 0);
    } else {
        let r = Double::of(n);
        rounding_keeps_53_bits(n, 1);
        lemma_small_is_doubled(n, 1);
        let e = (-r.exponent) as nat;
        assert(r.significand == pow2(e) * n);
        assert(pow2(e) * n == n * pow2(e)) by (nonlinear_arith);
        lemma_pow2_pos(e);
        assert((n * pow2(e)) / pow2(e) == n) by (nonlinear_arith)
            requires
                pow2(e) > 0,
        ;
        if r.exponent == 0 {
            assert(n * pow2(0) == n);
        }
    }
}

proof fn lemma_nearest_scaled(num: nat, den: nat)
    requires
        den > 0,
    ensures
        nearest(2 * num, 2 * den) == nearest(num, den),
{
    let q = num / den;
    let rest = num % den;
    vstd::arithmetic::div_mod::lemma_fundamental_div_mod(num as int, den as int);
    vstd::arithmetic::div_mod::lemma_mod_bound(num as int, den as int);
    assert(2 * num == q * (2 * den) + 2 * rest) by (nonlinear_arith)
        requires
            num == den * q + rest,
    ;
    vstd::arithmetic::div_mod::lemma_fundamental_div_mod_converse(
        2 * num as int,
        2 * den as int,
        q as int,
        2 * rest as int,
    );
}

proof fn lemma_rounded_scaled(num: nat, den: nat)
    requires
        num > 0,
        den > 0,
    ensures
        rounded(2 * num, 2 * den) == rounded(num, den),
    decreases
            if num >= 0x20_0000_0000_0000 * den {
                num as int
            } else if num < 0x10_0000_0000_0000 * den {
                0x10_0000_0000_0000 * den - num
            } else {
                0
            },
            if num >= 0x20_0000_0000_0000 * den {
                num - den
            } else {
                0
            },
{
    if num >= 0x20_0000_0000_0000 * den {
        lemma_rounded_scaled(num, 2 * den);
    } else if num < 0x10_0000_0000_0000 * den {
        lemma_rounded_scaled(2 * num, den);
    } else {
        lemma_nearest_scaled(num, den);
    }
}

/// Twice a number is rounded to twice as much.
pub proof fn doubling_is_exact(num: nat, den: nat)
    requires
        num > 0,
        den > 0,
    ensures
        rounded(2 * num, den).significand == rounded(num, den).significand,
        rounded(2 * num, den).exponent == rounded(num, den).exponent + 1,
{
    if num >= 0x10_0000_0000_0000 * den {
        lemma_rounded_scaled(num, den);
    }
}

proof fn lemma_shifted(num: nat, den: nat, k: nat)
    requires
        num > 0,
        den > 0,
    ensures
        num * pow2(k) > 0,
        rounded(num * pow2(k), den).significand == rounded(num, den).significand,
        rounded(num * pow2(k), den).exponent == rounded(num, den).exponent + k,
    decreases k,
{
    lemma2_to64();
    if k == 0 {
        assert(num * pow2(0) == num);
    } else {
        lemma_shifted(num, den, (k - 1) as nat);
        lemma_pow2_unfold(k);
        assert(num * pow2(k) == 2 * (num * pow2((k - 1) as nat))) by (nonlinear_arith)
            requires
                pow2(k) == 2 * pow2((k - 1) as nat),
        ;
        doubling_is_exact(num * pow2((k - 1) as nat), den);
    }
}

/// A number that is a power of two of another, over it, is one over that power, and scales an integer of
/// 53 bits or fewer down by it, rounded down.
pub proof fn powers_of_two_scale_exactly(n: nat, w: nat, k: nat)
    requires
        n < 0x20_0000_0000_0000,
        w > 0,
    ensures
        Double::of(n).times(Double::of(w).over(Double::of(w * pow2(k)))).floor() == n / pow2(k),
{
    lemma2_to64();
    lemma_pow2_pos(k);
    lemma_shifted(w, 1, k);
    let x = Double::of(w);
    let y = Double::of(w * pow2(k));
    rounding_keeps_53_bits(w, 1);
    let s = x.significand;
    assert(y.significand == s && y.exponent == x.exponent + k);
    let one = rounded(s, s);
    rounding_keeps_53_bits(s, s);
    lemma_small_is_doubled(s, s);
    let e = (-one.exponent) as nat;
    assert(one.significand == pow2(e)) by (nonlinear_arith)
        requires
            s > 0,
            2 * (pow2(e) * s) - s <= 2 * (one.significand * s) <= 2 * (pow2(e) * s) + s,
    ;
    let ratio = x.over(y);
    assert(ratio.significand == pow2(e) && ratio.exponent == -(e as int) - k);
    let a = Double::of(n);
    small_integers_are_exact(n);
    let r = a.times(ratio);
    if n == 0 {
        assert(0 * ratio.significand == 0) by (nonlinear_arith);
        assert(r.significand == 0 && r.exponent == 0);
        assert(0 * pow2(0) == 0);
        assert(0nat / pow2(k) == 0) by (nonlinear_arith)
            requires
                pow2(k) > 0,
        ;
    } else {
        let f = (-a.exponent) as nat;
        lemma_shifted(a.significand, 1, e);
        lemma_shifted(n, 1, f);
        assert(rounded(a.significand, 1).significand == a.significand);
        assert(rounded(a.significand, 1).exponent == 0);
        assert(r.significand == a.significand);
        assert(r.exponent == a.exponent - k);
        lemma_pow2_adds(f, k);
        assert(a.significand == n * pow2(f));
        lemma_pow2_pos(f);
        if r.exponent == 0 {
            assert(f == 0 && k == 0);
            assert(n * 1 == n);
            assert(n / pow2(0) == n);
        } else {
            assert((-r.exponent) as nat == f + k);
            vstd::arithmetic::div_mod::lemma_div_denominator(
                (n * pow2(f)) as int,
                pow2(f) as int,
                pow2(k) as int,
            );
            assert((n * pow2(f)) / pow2(f) == n) by (nonlinear_arith)
                requires
                    pow2(f) > 0,
            ;
        }
    }
}

} // verus!
