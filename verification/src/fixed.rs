//! Saturating fixed-point arithmetic with 64 fractional bits.
//!
//! A [`Price`] with bit pattern `bits` stands for the rational number
//! `bits / 2^64`. Multiplication and addition saturate at the largest
//! representable value instead of wrapping or panicking, and division by
//! zero yields `None`, which callers treat as "price unavailable".

use vstd::prelude::*;

verus! {

use vstd::arithmetic::mul::lemma_mul_upper_bound;
use vstd::arithmetic::mul::lemma_mul_inequality;
use vstd::arithmetic::div_mod::lemma_fundamental_div_mod;
use vstd::arithmetic::div_mod::lemma_fundamental_div_mod_converse;
use vstd::arithmetic::div_mod::lemma_mod_bound;
use vstd::arithmetic::power2::pow2;
use vstd::arithmetic::power2::lemma2_to64;
use vstd::arithmetic::power2::lemma2_to64_rest;
use vstd::arithmetic::power2::lemma_pow2_strictly_increases;
use vstd::arithmetic::power2::lemma_pow2_adds;

/// Bit pattern of the fixed-point value one, `2^64`.
pub const PRICE_ONE: u128 = 0x1_0000_0000_0000_0000;

/// An unsigned fixed-point number with 64 fractional bits: the bit pattern
/// `bits` stands for the rational `bits / 2^64`.
#[derive(Clone, Copy, PartialEq, Eq, Structural, Debug)]
pub struct Price {
    pub bits: u128,
}

/// The fixed-point value whose bit pattern is `bits_value`.
pub open spec fn price(bits_value: u128) -> Price {
    Price { bits: bits_value }
}

/// Clamp a mathematical integer into the `u128` range.
pub open spec fn sat_u128(x: int) -> u128 {
    if x < 0 {
        0
    } else if x > u128::MAX as int {
        u128::MAX
    } else {
        x as u128
    }
}

/// Clamp a mathematical integer into the `u64` range.
pub open spec fn sat_u64(x: int) -> u64 {
    if x < 0 {
        0
    } else if x > u64::MAX as int {
        u64::MAX
    } else {
        x as u64
    }
}

/// `u128` addition that saturates at `u128::MAX`.
fn sat_add_u128(a: u128, b: u128) -> (r: u128)
    ensures
        r == sat_u128(a + b),
{
    if a > u128::MAX - b {
        u128::MAX
    } else {
        a + b
    }
}

/// Decompose a `u128` into its high and low 64-bit halves.
proof fn lemma_split_u128(x: u128)
    ensures
        x == (x as int / PRICE_ONE as int) * PRICE_ONE + (x as int % PRICE_ONE as int),
        0 <= (x as int % PRICE_ONE as int) < PRICE_ONE,
        0 <= (x as int / PRICE_ONE as int) < PRICE_ONE,
{
    lemma_fundamental_div_mod(x as int, PRICE_ONE as int);
    lemma_mod_bound(x as int, PRICE_ONE as int);
    let hi = x as int / PRICE_ONE as int;
    assert(hi * PRICE_ONE <= x) by {
        lemma_mod_bound(x as int, PRICE_ONE as int);
    }
    assert(hi < PRICE_ONE) by (nonlinear_arith)
        requires
            hi * PRICE_ONE <= x as int,
            x <= u128::MAX,
            0 <= hi,
    {
    }
}

impl Price {
    /// The fixed-point value equal to the integer `n`.
    pub fn from_int(n: u64) -> (r: Price)
        ensures
            r.bits == n * PRICE_ONE,
    {
        proof {
            lemma_mul_upper_bound(n as int, u64::MAX as int, PRICE_ONE as int, PRICE_ONE as int);
        }
        Price { bits: (n as u128) * PRICE_ONE }
    }

    /// The fixed-point ratio `n / d`, or `None` when `d` is zero.
    pub fn from_rational(n: u64, d: u64) -> (r: Option<Price>)
        ensures
            (r is None) <==> d == 0,
            d != 0 ==> r == Some(price(((n * PRICE_ONE) / d as int) as u128)),
    {
        if d == 0 {
            return None;
        }
        proof {
            lemma_mul_upper_bound(n as int, u64::MAX as int, PRICE_ONE as int, PRICE_ONE as int);
        }
        let scaled: u128 = (n as u128) * PRICE_ONE;
        Some(Price { bits: scaled / (d as u128) })
    }

    /// Fixed-point subtraction `self - other`, saturating at zero.
    pub fn saturating_sub(self, other: Price) -> (r: Price)
        ensures
            r.bits == sat_u128(self.bits - other.bits),
    {
        if self.bits >= other.bits {
            Price { bits: self.bits - other.bits }
        } else {
            Price { bits: 0 }
        }
    }

    /// Fixed-point addition `self + other`, saturating at the largest value.
    pub fn saturating_add(self, other: Price) -> (r: Price)
        ensures
            r.bits == sat_u128(self.bits + other.bits),
    {
        Price { bits: sat_add_u128(self.bits, other.bits) }
    }

    /// Divide the fixed-point value by the integer `d`, rounding down,
    /// or `None` when `d` is zero.
    pub fn div_int(self, d: u64) -> (r: Option<Price>)
        ensures
            (r is None) <==> d == 0,
            d != 0 ==> r == Some(price((self.bits as int / d as int) as u128)),
    {
        if d == 0 {
            None
        } else {
            Some(Price { bits: self.bits / (d as u128) })
        }
    }

    /// Scale the fixed-point value by the integer `m`, saturating on overflow.
    pub fn mul_int(self, m: u64) -> (r: Price)
        ensures
            r.bits == sat_u128(self.bits * m),
    {
        let hi: u128 = self.bits / PRICE_ONE;
        let lo: u128 = self.bits % PRICE_ONE;
        proof {
            lemma_split_u128(self.bits);
            lemma_mul_upper_bound(hi as int, PRICE_ONE as int - 1, m as int, u64::MAX as int);
            lemma_mul_upper_bound(lo as int, PRICE_ONE as int - 1, m as int, u64::MAX as int);
            assert(self.bits * m == (hi * PRICE_ONE + lo) * m) by (nonlinear_arith)
                requires
                    self.bits == hi * PRICE_ONE + lo,
            {
            }
            assert((hi * PRICE_ONE + lo) * (m as int) == (hi * m) * PRICE_ONE + lo * m)
                by (nonlinear_arith)
            {
            }
        }
        let high: u128 = hi * (m as u128);
        if high >= PRICE_ONE {
            proof {
                assert((high as int) * PRICE_ONE >= PRICE_ONE * PRICE_ONE) by (nonlinear_arith)
                    requires
                        high >= PRICE_ONE,
                {
                }
            }
            Price { bits: u128::MAX }
        } else {
            let low: u128 = lo * (m as u128);
            proof {
                lemma_mul_upper_bound(high as int, PRICE_ONE as int - 1, PRICE_ONE as int,
                    PRICE_ONE as int);
            }
            let base: u128 = high * PRICE_ONE;
            Price { bits: sat_add_u128(base, low) }
        }
    }

    /// The integer part of the fixed-point value scaled by `m`, that is
    /// `floor(self * m)` as a balance, saturating at `u64::MAX`.
    pub fn mul_int_floor(self, m: u64) -> (r: u64)
        ensures
            r == sat_u64(self.bits * m / PRICE_ONE as int),
    {
        let hi: u128 = self.bits / PRICE_ONE;
        let lo: u128 = self.bits % PRICE_ONE;
        proof {
            lemma_split_u128(self.bits);
            lemma_mul_upper_bound(hi as int, PRICE_ONE as int - 1, m as int, u64::MAX as int);
            lemma_mul_upper_bound(lo as int, PRICE_ONE as int - 1, m as int, u64::MAX as int);
        }
        let scaled_hi: u128 = hi * (m as u128);
        let scaled_lo: u128 = (lo * (m as u128)) / PRICE_ONE;
        proof {
            lemma_fundamental_div_mod(lo as int * m as int, PRICE_ONE as int);
            lemma_mod_bound(lo as int * m as int, PRICE_ONE as int);
            let q = scaled_hi + (lo as int * m as int) / (PRICE_ONE as int);
            let rem = (lo as int * m as int) % (PRICE_ONE as int);
            assert(self.bits * m == q * PRICE_ONE + rem) by (nonlinear_arith)
                requires
                    self.bits == hi * PRICE_ONE + lo,
                    scaled_hi == hi * m,
                    lo as int * m as int == ((lo as int * m as int) / (PRICE_ONE as int))
                        * PRICE_ONE + rem,
                    q == scaled_hi + (lo as int * m as int) / (PRICE_ONE as int),
            {
            }
            lemma_fundamental_div_mod_converse(self.bits as int * m as int, PRICE_ONE as int, q,
                rem);
        }
        let total: u128 = scaled_hi + scaled_lo;
        if total > 0xFFFF_FFFF_FFFF_FFFF {
            u64::MAX
        } else {
            total as u64
        }
    }

    /// Fixed-point multiplication `self * other`, rounding down, saturating
    /// on overflow.
    pub fn mul_fixed(self, other: Price) -> (r: Price)
        ensures
            r.bits == sat_u128(self.bits * other.bits / PRICE_ONE as int),
    {
        let a_hi: u128 = self.bits / PRICE_ONE;
        let a_lo: u128 = self.bits % PRICE_ONE;
        let b_hi: u128 = other.bits / PRICE_ONE;
        let b_lo: u128 = other.bits % PRICE_ONE;
        proof {
            lemma_split_u128(self.bits);
            lemma_split_u128(other.bits);
            lemma_mul_upper_bound(a_hi as int, PRICE_ONE as int - 1, b_hi as int,
                PRICE_ONE as int - 1);
            lemma_mul_upper_bound(a_hi as int, PRICE_ONE as int - 1, b_lo as int,
                PRICE_ONE as int - 1);
            lemma_mul_upper_bound(a_lo as int, PRICE_ONE as int - 1, b_hi as int,
                PRICE_ONE as int - 1);
            lemma_mul_upper_bound(a_lo as int, PRICE_ONE as int - 1, b_lo as int,
                PRICE_ONE as int - 1);
            lemma_fundamental_div_mod(a_lo as int * b_lo as int, PRICE_ONE as int);
            lemma_mod_bound(a_lo as int * b_lo as int, PRICE_ONE as int);
        }
        let ghost exact = self.bits as int * other.bits as int / PRICE_ONE as int;
        let hh: u128 = a_hi * b_hi;
        let hl: u128 = a_hi * b_lo;
        let lh: u128 = a_lo * b_hi;
        let ll_floor: u128 = (a_lo * b_lo) / PRICE_ONE;
        proof {
            let q = hh * PRICE_ONE + hl + lh + ll_floor;
            let rem = (a_lo as int * b_lo as int) % (PRICE_ONE as int);
            assert(self.bits * other.bits == q * PRICE_ONE + rem) by (nonlinear_arith)
                requires
                    self.bits == a_hi * PRICE_ONE + a_lo,
                    other.bits == b_hi * PRICE_ONE + b_lo,
                    hh == a_hi * b_hi,
                    hl == a_hi * b_lo,
                    lh == a_lo * b_hi,
                    a_lo as int * b_lo as int == ((a_lo as int * b_lo as int) / (
                    PRICE_ONE as int)) * PRICE_ONE + rem,
                    q == hh * PRICE_ONE + hl + lh + ll_floor,
                    ll_floor == (a_lo as int * b_lo as int) / (PRICE_ONE as int),
            {
            }
            lemma_fundamental_div_mod_converse(self.bits as int * other.bits as int,
                PRICE_ONE as int, q, rem);
            assert(exact == hh * PRICE_ONE + hl + lh + ll_floor);
        }
        if hh >= PRICE_ONE {
            proof {
                assert(hh as int * PRICE_ONE >= PRICE_ONE * PRICE_ONE) by (nonlinear_arith)
                    requires
                        hh >= PRICE_ONE,
                {
                }
            }
            return Price { bits: u128::MAX };
        }
        proof {
            lemma_mul_upper_bound(hh as int, PRICE_ONE as int - 1, PRICE_ONE as int,
                PRICE_ONE as int);
        }
        let base: u128 = hh * PRICE_ONE;
        let step1: u128 = sat_add_u128(base, hl);
        let step2: u128 = sat_add_u128(step1, lh);
        let step3: u128 = sat_add_u128(step2, ll_floor);
        Price { bits: step3 }
    }

    /// Fixed-point division `self / other`, rounding down, saturating on
    /// overflow, or `None` when `other` is zero.
    pub fn div_fixed(self, other: Price) -> (r: Option<Price>)
        ensures
            (r is None) <==> other.bits == 0,
            other.bits != 0 ==> r == Some(price(sat_u128(self.bits * PRICE_ONE / other.bits as int))),
    {
        if other.bits == 0 {
            return None;
        }
        let a: u128 = self.bits;
        let b: u128 = other.bits;
        let quot: u128 = a / b;
        let remd: u128 = a % b;
        proof {
            lemma_fundamental_div_mod(a as int, b as int);
            lemma_mod_bound(a as int, b as int);
        }
        let ghost exact = a as int * PRICE_ONE / b as int;
        if b <= 0xFFFF_FFFF_FFFF_FFFF {
            // The divisor fits in 64 bits, so the remainder scaled by 2^64
            // still fits in 128 bits and one more machine division finishes.
            proof {
                lemma_mul_upper_bound(remd as int, PRICE_ONE as int - 1, PRICE_ONE as int,
                    PRICE_ONE as int);
                lemma_fundamental_div_mod(remd as int * PRICE_ONE as int, b as int);
                lemma_mod_bound(remd as int * PRICE_ONE as int, b as int);
                let tail = remd as int * PRICE_ONE / b as int;
                let rem2 = (remd as int * PRICE_ONE as int) % (b as int);
                assert(a * PRICE_ONE == (quot * PRICE_ONE + tail) * b + rem2)
                    by (nonlinear_arith)
                    requires
                        a == b * quot + remd,
                        remd as int * PRICE_ONE as int == b * tail + rem2,
                {
                }
                lemma_fundamental_div_mod_converse(a as int * PRICE_ONE as int, b as int,
                    quot * PRICE_ONE as int + tail, rem2);
                assert(exact == quot * PRICE_ONE + tail);
                assert(tail * b <= remd * PRICE_ONE) by (nonlinear_arith)
                    requires
                        remd as int * PRICE_ONE as int == b * tail + rem2,
                        rem2 >= 0,
                {
                }
                assert(tail < PRICE_ONE) by (nonlinear_arith)
                    requires
                        tail * b <= remd * PRICE_ONE,
                        remd < b,
                        0 < b,
                        0 <= tail,
                {
                }
            }
            if quot > 0xFFFF_FFFF_FFFF_FFFF {
                proof {
                    assert(quot * PRICE_ONE >= PRICE_ONE * PRICE_ONE) by (nonlinear_arith)
                        requires
                            quot >= PRICE_ONE,
                    {
                    }
                }
                return Some(Price { bits: u128::MAX });
            }
            let tail_exec: u128 = (remd * PRICE_ONE) / b;
            return Some(Price { bits: quot * PRICE_ONE + tail_exec });
        }
        // The divisor needs more than 64 bits; run 64 rounds of binary long
        // division on the remainder, doubling the quotient each round.
        let mut q: u128 = quot;
        let mut rem: u128 = remd;
        let mut k: u64 = 0;
        proof {
            lemma2_to64();
        }
        while k < 64
            invariant
                0xFFFF_FFFF_FFFF_FFFF < b,
                k <= 64,
                rem < b,
                q * b + rem == a * pow2(k as nat),
            decreases 64 - k,
        {
            proof {
                lemma2_to64();
                lemma2_to64_rest();
                if (k as nat) < 63 {
                    lemma_pow2_strictly_increases(k as nat, 63);
                }
                assert(q * b <= a * pow2(k as nat)) by {
                    assert(rem >= 0);
                }
                assert(q * PRICE_ONE <= q * b) by (nonlinear_arith)
                    requires
                        PRICE_ONE <= b as int,
                        0 <= q,
                {
                }
                assert(a * pow2(k as nat) <= a * pow2(63)) by (nonlinear_arith)
                    requires
                        pow2(k as nat) <= pow2(63),
                        0 <= a,
                {
                }
                lemma_mul_inequality(a as int, u128::MAX as int, pow2(63) as int);
                assert(q * PRICE_ONE <= u128::MAX as int * pow2(63));
                assert(q < 0x8000_0000_0000_0000_0000_0000_0000_0000) by (nonlinear_arith)
                    requires
                        q * PRICE_ONE <= u128::MAX as int * pow2(63),
                        pow2(63) == 0x8000_0000_0000_0000,
                        PRICE_ONE == 0x1_0000_0000_0000_0000,
                        0 <= q,
                {
                }
                assert(a * pow2(k as nat + 1) == 2 * (a * pow2(k as nat))) by {
                    lemma_pow2_adds(1, k as nat);
                    assert(a * (2 * pow2(k as nat)) == 2 * (a * pow2(k as nat)))
                        by (nonlinear_arith)
                    {
                    }
                }
            }
            let diff: u128 = b - rem;
            if rem >= diff {
                proof {
                    assert((2 * q + 1) * b + (2 * rem - b) == 2 * (q * b + rem))
                        by (nonlinear_arith)
                    {
                    }
                }
                q = q + q + 1;
                rem = rem - diff;
            } else {
                proof {
                    assert((2 * q) * b + (2 * rem) == 2 * (q * b + rem)) by (nonlinear_arith)
                    {
                    }
                }
                q = q + q;
                rem = rem + rem;
            }
            k = k + 1;
        }
        proof {
            lemma2_to64();
            lemma_fundamental_div_mod_converse(a as int * PRICE_ONE as int, b as int, q as int,
                rem as int);
        }
        Some(Price { bits: q })
    }

    /// `floor(n / self)` as a balance, saturating at `u64::MAX`, or `None`
    /// when the fixed-point value is zero.
    pub fn div_into(self, n: u64) -> (r: Option<u64>)
        ensures
            (r is None) <==> self.bits == 0,
            self.bits != 0 ==> r == Some(sat_u64(n * PRICE_ONE / self.bits as int)),
    {
        if self.bits == 0 {
            return None;
        }
        proof {
            lemma_mul_upper_bound(n as int, u64::MAX as int, PRICE_ONE as int, PRICE_ONE as int);
        }
        let scaled: u128 = (n as u128) * PRICE_ONE;
        let q: u128 = scaled / self.bits;
        if q > 0xFFFF_FFFF_FFFF_FFFF {
            Some(u64::MAX)
        } else {
            Some(q as u64)
        }
    }
}

} // verus!
