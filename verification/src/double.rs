//! Double-precision numbers held as their bits.
//!
//! The scans compare such numbers and round them to integers. Both are exact questions about the
//! bits, and are answered on the bits.

use vstd::arithmetic::div_mod::{lemma_basic_div, lemma_fundamental_div_mod, lemma_small_mod};
use vstd::arithmetic::power2::{
    lemma2_to64, lemma2_to64_rest, lemma_pow2_adds, lemma_pow2_pos, lemma_pow2_strictly_increases,
    pow2,
};
use vstd::bits::{lemma_u64_pow2_no_overflow, lemma_u64_shl_is_mul};
use vstd::prelude::*;

verus! {

/// A double-precision number, by its bits.
#[derive(Clone, Copy, Debug, PartialEq, Eq, Structural)]
pub struct F64 {
    pub bits: u64,
}

/// The sign bit.
pub open spec fn negative(b: u64) -> bool {
    b >= 0x8000_0000_0000_0000
}

/// The bits without the sign.
pub open spec fn magnitude(b: u64) -> int {
    b as int % 0x8000_0000_0000_0000
}

/// Whether the bits stand for no number.
pub open spec fn is_nan(b: u64) -> bool {
    magnitude(b) > 0x7ff0_0000_0000_0000
}

/// Whether the bits stand for a number that is neither infinite nor missing.
pub open spec fn is_finite(b: u64) -> bool {
    magnitude(b) < 0x7ff0_0000_0000_0000
}

/// Numbers compare as their ranks do. Both zeros have rank 0.
pub open spec fn rank(b: u64) -> int {
    if negative(b) {
        -magnitude(b)
    } else {
        magnitude(b)
    }
}

/// `a <= b`, false where one of them is no number.
pub open spec fn le(a: F64, b: F64) -> bool {
    !is_nan(a.bits) && !is_nan(b.bits) && rank(a.bits) <= rank(b.bits)
}

/// `a < b`, false where one of them is no number.
pub open spec fn lt(a: F64, b: F64) -> bool {
    !is_nan(a.bits) && !is_nan(b.bits) && rank(a.bits) < rank(b.bits)
}

/// The biased exponent.
pub open spec fn exponent(b: u64) -> int {
    magnitude(b) / 0x10_0000_0000_0000
}

/// The significand as a whole number.
pub open spec fn significand(b: u64) -> int {
    if exponent(b) == 0 {
        magnitude(b)
    } else {
        magnitude(b) % 0x10_0000_0000_0000 + 0x10_0000_0000_0000
    }
}

/// The power of two that the significand is scaled by.
pub open spec fn scale(b: u64) -> int {
    if exponent(b) == 0 {
        -1074
    } else {
        exponent(b) - 1075
    }
}

/// The absolute value, rounded down to a whole number.
pub open spec fn whole(b: u64) -> int {
    if scale(b) >= 0 {
        significand(b) * pow2(scale(b) as nat)
    } else {
        significand(b) / (pow2((-scale(b)) as nat) as int)
    }
}

/// Whether nothing is lost by rounding to a whole number.
pub open spec fn is_whole(b: u64) -> bool {
    scale(b) >= 0 || significand(b) % (pow2((-scale(b)) as nat) as int) == 0
}

/// `x` brought into the range of a signed double word, at the nearer end.
pub open spec fn clamp_i64(x: int) -> int {
    if x > i64::MAX {
        i64::MAX as int
    } else if x < i64::MIN {
        i64::MIN as int
    } else {
        x
    }
}

/// The number rounded towards zero; 0 for what is no number.
pub open spec fn trunc_i64(v: F64) -> int {
    if is_nan(v.bits) {
        0
    } else if negative(v.bits) {
        clamp_i64(-whole(v.bits))
    } else {
        clamp_i64(whole(v.bits))
    }
}

/// The number rounded up; 0 for what is no number.
pub open spec fn ceil_i64(v: F64) -> int {
    if is_nan(v.bits) {
        0
    } else if negative(v.bits) {
        clamp_i64(-whole(v.bits))
    } else if is_whole(v.bits) {
        clamp_i64(whole(v.bits))
    } else {
        clamp_i64(whole(v.bits) + 1)
    }
}

/// The number rounded down; 0 for what is no number.
pub open spec fn floor_i64(v: F64) -> int {
    if is_nan(v.bits) {
        0
    } else if !negative(v.bits) {
        clamp_i64(whole(v.bits))
    } else if is_whole(v.bits) {
        clamp_i64(-whole(v.bits))
    } else {
        clamp_i64(-whole(v.bits) - 1)
    }
}

/// The number of binary digits of `a`.
pub open spec fn digits(a: nat) -> nat
    decreases a,
{
    if a == 0 {
        0
    } else {
        digits(a / 2) + 1
    }
}

/// `a` cut to 53 binary digits, to the nearest and at a tie to the even one. The result has 53
/// digits, or is `2^53`.
pub open spec fn round_53(a: nat) -> nat {
    let n = digits(a);
    if n <= 53 {
        a * pow2((53 - n) as nat)
    } else {
        let unit = pow2((n - 53) as nat);
        let q = a / unit;
        let r = a % unit;
        if 2 * r > unit || (2 * r == unit && q % 2 == 1) {
            q + 1
        } else {
            q
        }
    }
}

/// The bits of the double nearest to `v`.
pub open spec fn bits_of_i64(v: int) -> int {
    let a = if v < 0 {
        (-v) as nat
    } else {
        v as nat
    };
    if a == 0 {
        0
    } else {
        (if v < 0 {
            0x8000_0000_0000_0000int
        } else {
            0int
        }) + (digits(a) + 1022) * 0x10_0000_0000_0000 + round_53(a) - 0x10_0000_0000_0000
    }
}

/// The digits of a number give the powers of two around it.
pub proof fn digits_bounds(a: nat)
    requires
        a > 0,
    ensures
        digits(a) > 0,
        pow2((digits(a) - 1) as nat) <= a < pow2(digits(a)),
    decreases a,
{
    lemma2_to64();
    if a / 2 > 0 {
        digits_bounds(a / 2);
        lemma_pow2_adds(1, (digits(a / 2) - 1) as nat);
        lemma_pow2_adds(1, digits(a / 2));
    } else {
        assert(digits(0) == 0);
    }
}

/// `2^k`, by shifting.
fn power_of_two(k: u64) -> (r: u64)
    requires
        k < 64,
    ensures
        r == pow2(k as nat),
{
    proof {
        lemma_u64_pow2_no_overflow(k as nat);
        lemma_u64_shl_is_mul(1, k);
    }
    1u64 << k
}

/// A power of two that a significand is divided by covers it from the 53rd on.
proof fn significand_below(b: u64)
    ensures
        0 <= significand(b) < pow2(53),
        pow2(53) == 0x20_0000_0000_0000,
{
    lemma2_to64();
    lemma2_to64_rest();
}

impl F64 {
    /// The number with these bits.
    pub fn from_bits(bits: u64) -> (r: F64)
        ensures
            r.bits == bits,
    {
        F64 { bits }
    }

    /// Whether this is no number.
    pub fn is_nan(self) -> (r: bool)
        ensures
            r == is_nan(self.bits),
    {
        self.bits % 0x8000_0000_0000_0000 > 0x7ff0_0000_0000_0000
    }

    /// Whether this is neither infinite nor missing.
    pub fn is_finite(self) -> (r: bool)
        ensures
            r == is_finite(self.bits),
    {
        self.bits % 0x8000_0000_0000_0000 < 0x7ff0_0000_0000_0000
    }

    /// The rank by which numbers compare.
    pub fn rank(self) -> (r: i64)
        ensures
            r == rank(self.bits),
    {
        let m: i64 = (self.bits % 0x8000_0000_0000_0000) as i64;
        if self.bits >= 0x8000_0000_0000_0000 {
            -m
        } else {
            m
        }
    }

    /// `self <= other`.
    pub fn le(self, other: F64) -> (r: bool)
        ensures
            r == le(self, other),
    {
        !self.is_nan() && !other.is_nan() && self.rank() <= other.rank()
    }

    /// `self < other`.
    pub fn lt(self, other: F64) -> (r: bool)
        ensures
            r == lt(self, other),
    {
        !self.is_nan() && !other.is_nan() && self.rank() < other.rank()
    }

    /// The absolute value rounded down and whether that is exact; `None` from `2^63` on.
    fn split(self) -> (r: Option<(u64, bool)>)
        ensures
            r matches Some((w, exact)) ==> w == whole(self.bits) && exact == is_whole(self.bits)
                && w < 0x8000_0000_0000_0000,
            r is None ==> whole(self.bits) >= 0x8000_0000_0000_0000 && is_whole(self.bits),
    {
        let m: u64 = self.bits % 0x8000_0000_0000_0000;
        let e: u64 = m / 0x10_0000_0000_0000;
        let s: u64 = if e == 0 {
            m
        } else {
            m % 0x10_0000_0000_0000 + 0x10_0000_0000_0000
        };
        proof {
            significand_below(self.bits);
            lemma2_to64();
            lemma2_to64_rest();
        }
        if e >= 1086 {
            proof {
                let k = (e - 1075) as nat;
                if k > 11 {
                    lemma_pow2_strictly_increases(11, k);
                }
                assert(s * pow2(k) >= 0x10_0000_0000_0000 * 0x800) by (nonlinear_arith)
                    requires
                        s >= 0x10_0000_0000_0000,
                        pow2(k) >= 0x800,
                ;
            }
            return None;
        }
        if e >= 1075 {
            let k: u64 = e - 1075;
            let p: u64 = power_of_two(k);
            proof {
                if k < 10 {
                    lemma_pow2_strictly_increases(k as nat, 10);
                }
                assert(0 <= s * p < 0x8000_0000_0000_0000) by (nonlinear_arith)
                    requires
                        0 <= s < 0x20_0000_0000_0000,
                        0 < p <= 0x400,
                ;
            }
            return Some((s * p, true));
        }
        let k: u64 = if e == 0 {
            1074
        } else {
            1075 - e
        };
        if k >= 53 {
            proof {
                if k > 53 {
                    lemma_pow2_strictly_increases(53, k as nat);
                }
                lemma_basic_div(s as int, pow2(k as nat) as int);
                lemma_small_mod(s as nat, pow2(k as nat));
            }
            return Some((0, s == 0));
        }
        let p: u64 = power_of_two(k);
        proof {
            lemma_pow2_pos(k as nat);
            assert(s / p <= s) by (nonlinear_arith)
                requires
                    p > 0,
            ;
        }
        Some((s / p, s % p == 0))
    }

    /// The number rounded towards zero.
    pub fn trunc_i64(self) -> (r: i64)
        ensures
            r == trunc_i64(self),
    {
        if self.is_nan() {
            return 0;
        }
        match self.split() {
            None => if self.bits >= 0x8000_0000_0000_0000 {
                i64::MIN
            } else {
                i64::MAX
            },
            Some((w, _)) => if self.bits >= 0x8000_0000_0000_0000 {
                -(w as i64)
            } else {
                w as i64
            },
        }
    }

    /// The number rounded up.
    pub fn ceil_i64(self) -> (r: i64)
        ensures
            r == ceil_i64(self),
    {
        if self.is_nan() {
            return 0;
        }
        match self.split() {
            None => if self.bits >= 0x8000_0000_0000_0000 {
                i64::MIN
            } else {
                i64::MAX
            },
            Some((w, exact)) => if self.bits >= 0x8000_0000_0000_0000 {
                -(w as i64)
            } else if exact || w as i64 == i64::MAX {
                w as i64
            } else {
                w as i64 + 1
            },
        }
    }

    /// The number rounded down.
    pub fn floor_i64(self) -> (r: i64)
        ensures
            r == floor_i64(self),
    {
        if self.is_nan() {
            return 0;
        }
        match self.split() {
            None => if self.bits >= 0x8000_0000_0000_0000 {
                i64::MIN
            } else {
                i64::MAX
            },
            Some((w, exact)) => if self.bits < 0x8000_0000_0000_0000 {
                w as i64
            } else if exact {
                -(w as i64)
            } else {
                -(w as i64) - 1
            },
        }
    }

    /// The double nearest to `v`.
    pub fn from_i64(v: i64) -> (r: F64)
        ensures
            r.bits == bits_of_i64(v as int),
    {
        if v == 0 {
            return F64 { bits: 0 };
        }
        let sign: u64 = if v < 0 {
            0x8000_0000_0000_0000
        } else {
            0
        };
        let a: u64 = if v < 0 {
            (-(v as i128)) as u64
        } else {
            v as u64
        };
        proof {
            digits_bounds(a as nat);
            lemma2_to64();
            lemma2_to64_rest();
            if digits(a as nat) > 65 {
                lemma_pow2_strictly_increases(64, (digits(a as nat) - 1) as nat);
            }
        }
        let mut n: u64 = 0;
        let mut rest: u64 = a;
        while rest > 0
            invariant
                n + digits(rest as nat) == digits(a as nat),
                digits(a as nat) <= 64,
            decreases rest,
        {
            rest = rest / 2;
            n = n + 1;
        }
        let top: u64 = (n + 1022) * 0x10_0000_0000_0000;
        let q: u64;
        if n <= 53 {
            let p: u64 = power_of_two(53 - n);
            proof {
                lemma_pow2_adds(n as nat, (53 - n) as nat);
                lemma_pow2_adds((n - 1) as nat, (53 - n) as nat);
                assert(pow2((n - 1) as nat) * p <= a * p < pow2(n as nat) * p) by (nonlinear_arith)
                    requires
                        pow2((n - 1) as nat) <= a < pow2(n as nat),
                        p > 0,
                ;
            }
            q = a * p;
        } else {
            let unit: u64 = power_of_two(n - 53);
            proof {
                lemma_pow2_adds(53, (n - 53) as nat);
                lemma_pow2_adds(52, (n - 53) as nat);
                if n - 53 < 11 {
                    lemma_pow2_strictly_increases((n - 53) as nat, 11);
                }
                assert(0x10_0000_0000_0000 <= a / unit < 0x20_0000_0000_0000) by (nonlinear_arith)
                    requires
                        0x10_0000_0000_0000 * unit <= a < 0x20_0000_0000_0000 * unit,
                        unit > 0,
                ;
            }
            let cut: u64 = a / unit;
            let lost: u64 = a % unit;
            if 2 * lost > unit || (2 * lost == unit && cut % 2 == 1) {
                q = cut + 1;
            } else {
                q = cut;
            }
        }
        F64 { bits: sign + top + (q - 0x10_0000_0000_0000) }
    }
}

/// The significand with the sign.
pub open spec fn signed_significand(b: u64) -> int {
    if negative(b) {
        -significand(b)
    } else {
        significand(b)
    }
}

/// Whether a double is at most a whole number: its significand, scaled, is. An infinite one has a
/// significand and a scale beyond those of every finite one.
pub open spec fn at_most(d: F64, v: int) -> bool {
    if scale(d.bits) >= 0 {
        signed_significand(d.bits) * pow2(scale(d.bits) as nat) <= v
    } else {
        signed_significand(d.bits) <= v * pow2((-scale(d.bits)) as nat)
    }
}

/// Whether a double is at least a whole number.
pub open spec fn at_least(d: F64, v: int) -> bool {
    if scale(d.bits) >= 0 {
        signed_significand(d.bits) * pow2(scale(d.bits) as nat) >= v
    } else {
        signed_significand(d.bits) >= v * pow2((-scale(d.bits)) as nat)
    }
}

/// A quotient compares to a whole number as the dividend does to its multiple.
proof fn quotient_compares(s: int, p: int, u: int)
    requires
        0 < p,
    ensures
        (s >= u * p) == (s / p >= u),
        s % p == 0 ==> (s <= u * p) == (s / p <= u),
        s % p != 0 ==> (s <= u * p) == (s / p + 1 <= u),
{
    let w = s / p;
    let r = s % p;
    lemma_fundamental_div_mod(s, p);
    assert(s == w * p + r && 0 <= r < p) by (nonlinear_arith)
        requires
            s == p * w + r,
            r == s % p,
            0 < p,
    ;
    if w >= u {
        assert(w * p >= u * p) by (nonlinear_arith)
            requires
                w >= u,
                0 < p,
        ;
    } else {
        assert((w + 1) * p <= u * p) by (nonlinear_arith)
            requires
                w + 1 <= u,
                0 < p,
        ;
        assert((w + 1) * p == w * p + p) by (nonlinear_arith);
    }
    if w > u {
        assert(w * p >= (u + 1) * p) by (nonlinear_arith)
            requires
                w >= u + 1,
                0 < p,
        ;
        assert((u + 1) * p == u * p + p) by (nonlinear_arith);
    } else if w == u {
        assert(w * p == u * p);
    }
}

/// A double is at most a whole number where, rounded up, it is. It is no larger than the numbers of
/// the store can be: beyond them it is brought to the largest.
pub proof fn law_ceil(d: F64, v: int)
    requires
        !is_nan(d.bits),
        i64::MIN <= v <= i64::MAX,
        at_most(d, i64::MAX as int),
    ensures
        (ceil_i64(d) <= v) == at_most(d, v),
{
    let b = d.bits;
    let s = significand(b);
    let top = i64::MAX as int;
    if scale(b) >= 0 {
        let p = pow2(scale(b) as nat) as int;
        assert((-s) * p == -(s * p)) by (nonlinear_arith);
    } else {
        let p = pow2((-scale(b)) as nat) as int;
        lemma_pow2_pos((-scale(b)) as nat);
        quotient_compares(s, p, v);
        quotient_compares(s, p, -v);
        quotient_compares(s, p, top);
        quotient_compares(s, p, -top - 1);
        quotient_compares(s, p, top + 1);
        assert((-v) * p == -(v * p)) by (nonlinear_arith);
    }
}

/// A double is at least a whole number where, rounded down, it is. It is no smaller than the numbers
/// of the store can be: below them it is brought to the smallest.
pub proof fn law_floor(d: F64, v: int)
    requires
        !is_nan(d.bits),
        i64::MIN <= v <= i64::MAX,
        at_least(d, i64::MIN as int),
    ensures
        (v <= floor_i64(d)) == at_least(d, v),
{
    let b = d.bits;
    let s = significand(b);
    let low = i64::MIN as int;
    if scale(b) >= 0 {
        let p = pow2(scale(b) as nat) as int;
        assert((-s) * p == -(s * p)) by (nonlinear_arith);
    } else {
        let p = pow2((-scale(b)) as nat) as int;
        lemma_pow2_pos((-scale(b)) as nat);
        quotient_compares(s, p, v);
        quotient_compares(s, p, -v);
        quotient_compares(s, p, -low);
        assert((-v) * p == -(v * p)) by (nonlinear_arith);
        assert((-low) * p == -(low * p)) by (nonlinear_arith);
    }
}

} // verus!
