//! Binary64 floating point computed exactly on integers.

use crate::rounding::{
    half_even, lemma_half_even_scaled, nearest, round, two_to, INFINITY_BITS, LEADING_BIT,
};
use vstd::arithmetic::div_mod::{lemma_fundamental_div_mod, lemma_fundamental_div_mod_converse};
use vstd::arithmetic::power2::{
    lemma2_to64, lemma2_to64_rest, lemma_pow2_adds, lemma_pow2_pos, lemma_pow2_strictly_increases,
    lemma_pow2_unfold, pow2,
};
use vstd::prelude::*;

verus! {

/// The weight of the sign bit.
pub const SIGN_BIT: u64 = 0x8000_0000_0000_0000;

/// The longest span of time, in nanoseconds: one short of 2^64 seconds.
pub const MAX_NANOS: u128 = 18_446_744_073_709_551_615_999_999_999;

/// The number of units in one: 2^1074.
pub open spec fn one_in_units() -> nat {
    pow2(1074)
}

/// The number of units of the number with this bit pattern, sign left out.
pub open spec fn units_of(magnitude: nat) -> nat {
    let exponent = magnitude / 0x10_0000_0000_0000;
    let fraction = magnitude % 0x10_0000_0000_0000;
    if exponent == 0 {
        fraction
    } else {
        (0x10_0000_0000_0000 + fraction) * pow2((exponent - 1) as nat)
    }
}

/// An IEEE 754 binary64 number, held as its bit pattern.
#[derive(Clone, Copy, Debug)]
pub struct Binary64 {
    pub bits: u64,
}

/// The number with the given sign and bit pattern below the sign.
pub open spec fn with_sign(negative: bool, magnitude: nat) -> Binary64 {
    Binary64 {
        bits: (if negative {
            0x8000_0000_0000_0000 + magnitude
        } else {
            magnitude
        }) as u64,
    }
}

pub open spec fn nan() -> Binary64 {
    Binary64 { bits: 0x7FF8_0000_0000_0000 }
}

impl Binary64 {
    pub open spec fn negative(self) -> bool {
        self.bits >= 0x8000_0000_0000_0000
    }

    /// The bit pattern below the sign. Numbers of one sign are ordered as their magnitudes.
    pub open spec fn magnitude(self) -> nat {
        if self.negative() {
            (self.bits - 0x8000_0000_0000_0000) as nat
        } else {
            self.bits as nat
        }
    }

    pub open spec fn nan(self) -> bool {
        self.magnitude() > 0x7FF0_0000_0000_0000
    }

    pub open spec fn infinite(self) -> bool {
        self.magnitude() == 0x7FF0_0000_0000_0000
    }

    pub open spec fn finite(self) -> bool {
        self.magnitude() < 0x7FF0_0000_0000_0000
    }

    /// The place of a number in the order of all numbers that are not NaN; the two zeros
    /// share one place.
    pub open spec fn order(self) -> int {
        if self.negative() {
            -(self.magnitude() as int)
        } else {
            self.magnitude() as int
        }
    }

    /// The exact value, in units of 2^-1074.
    pub open spec fn units(self) -> int {
        if self.negative() {
            -(units_of(self.magnitude()) as int)
        } else {
            units_of(self.magnitude()) as int
        }
    }
}

/// `a < b`; false where either is NaN.
pub open spec fn less(a: Binary64, b: Binary64) -> bool {
    !a.nan() && !b.nan() && a.order() < b.order()
}

/// `a <= b`; false where either is NaN.
pub open spec fn at_most(a: Binary64, b: Binary64) -> bool {
    !a.nan() && !b.nan() && a.order() <= b.order()
}

/// The binary64 number nearest to `num / den` units, with the sign of `num`.
pub open spec fn nearest_signed(num: int, den: nat) -> Binary64 {
    if num < 0 {
        with_sign(true, nearest((-num) as nat, den))
    } else {
        with_sign(false, nearest(num as nat, den))
    }
}

/// The binary64 number nearest to the integer `n`.
pub open spec fn integer(n: int) -> Binary64 {
    nearest_signed(n * one_in_units(), 1)
}

/// The binary64 number nearest to `p / q`, for whole numbers below 2^53.
pub open spec fn ratio(p: int, q: int) -> Binary64 {
    quotient(integer(p), integer(q))
}

pub open spec fn opposite(a: Binary64) -> Binary64 {
    with_sign(!a.negative(), a.magnitude())
}

/// `a + b`, correctly rounded. A sum of zero is negative only where both terms are.
pub open spec fn sum(a: Binary64, b: Binary64) -> Binary64 {
    if a.nan() || b.nan() || (a.infinite() && b.infinite() && a.negative() != b.negative()) {
        nan()
    } else if a.infinite() {
        a
    } else if b.infinite() {
        b
    } else if a.units() + b.units() == 0 {
        with_sign(a.negative() && b.negative(), 0)
    } else {
        nearest_signed(a.units() + b.units(), 1)
    }
}

/// `a - b`, correctly rounded.
pub open spec fn difference(a: Binary64, b: Binary64) -> Binary64 {
    sum(a, opposite(b))
}

/// `a * b`, correctly rounded.
pub open spec fn product(a: Binary64, b: Binary64) -> Binary64 {
    let negative = a.negative() != b.negative();
    if a.nan() || b.nan() || (a.infinite() && b.magnitude() == 0) || (a.magnitude() == 0
        && b.infinite()) {
        nan()
    } else if a.infinite() || b.infinite() {
        with_sign(negative, INFINITY_BITS as nat)
    } else {
        with_sign(
            negative,
            nearest(units_of(a.magnitude()) * units_of(b.magnitude()), one_in_units()),
        )
    }
}

/// `a / b`, correctly rounded.
pub open spec fn quotient(a: Binary64, b: Binary64) -> Binary64 {
    let negative = a.negative() != b.negative();
    if a.nan() || b.nan() || (a.infinite() && b.infinite()) || (a.magnitude() == 0
        && b.magnitude() == 0) {
        nan()
    } else if a.infinite() || b.magnitude() == 0 {
        with_sign(negative, INFINITY_BITS as nat)
    } else if b.infinite() {
        with_sign(negative, 0)
    } else {
        with_sign(
            negative,
            nearest(units_of(a.magnitude()) * one_in_units(), units_of(b.magnitude())),
        )
    }
}

/// `a` held between `low` and `high`; NaN stays NaN.
pub open spec fn clamped(a: Binary64, low: Binary64, high: Binary64) -> Binary64 {
    if less(a, low) {
        low
    } else if less(high, a) {
        high
    } else {
        a
    }
}

/// The greater of two numbers; the other one where one is NaN.
pub open spec fn greater_of(a: Binary64, b: Binary64) -> Binary64 {
    if a.nan() || less(a, b) {
        b
    } else {
        a
    }
}

/// The lesser of two numbers; the other one where one is NaN.
pub open spec fn lesser_of(a: Binary64, b: Binary64) -> Binary64 {
    if a.nan() || less(b, a) {
        b
    } else {
        a
    }
}

/// The whole part of a number, towards zero, held to the range of `isize`; zero for NaN.
pub open spec fn whole_part(a: Binary64) -> int {
    let whole = units_of(a.magnitude()) / one_in_units();
    if a.nan() {
        0
    } else if a.negative() {
        if whole > -(isize::MIN as int) {
            isize::MIN as int
        } else {
            -(whole as int)
        }
    } else {
        if whole > isize::MAX {
            isize::MAX as int
        } else {
            whole as int
        }
    }
}

/// The nanoseconds nearest to a number of seconds, ties to even.
pub open spec fn nanos_of_seconds(a: Binary64) -> nat {
    half_even(units_of(a.magnitude()) * 1_000_000_000, one_in_units())
}

impl Binary64 {
    pub fn from_bits(bits: u64) -> (r: Self)
        ensures
            r.bits == bits,
    {
        Binary64 { bits }
    }

    pub fn to_bits(self) -> (bits: u64)
        ensures
            bits == self.bits,
    {
        self.bits
    }

    fn is_negative(self) -> (r: bool)
        ensures
            r == self.negative(),
    {
        self.bits >= SIGN_BIT
    }

    fn get_magnitude(self) -> (r: u64)
        ensures
            r == self.magnitude(),
            r < SIGN_BIT,
    {
        if self.bits >= SIGN_BIT {
            self.bits - SIGN_BIT
        } else {
            self.bits
        }
    }

    fn assemble(negative: bool, magnitude: u64) -> (r: Self)
        requires
            magnitude < SIGN_BIT,
        ensures
            r == with_sign(negative, magnitude as nat),
            r.negative() == negative,
            r.magnitude() == magnitude,
    {
        if negative {
            Binary64 { bits: SIGN_BIT + magnitude }
        } else {
            Binary64 { bits: magnitude }
        }
    }

    /// The significand of a finite number and the power of two, in units, that weighs it.
    fn parts(magnitude: u64) -> (r: (u64, u32))
        requires
            magnitude < INFINITY_BITS,
        ensures
            units_of(magnitude as nat) == r.0 * pow2(r.1 as nat),
            r.0 < 0x20_0000_0000_0000,
            r.1 > 0 ==> r.0 >= 0x10_0000_0000_0000,
            r.1 <= 2045,
            r.1 == 0 || r.1 == magnitude / 0x10_0000_0000_0000 - 1,
            r.0 == 0 <==> magnitude == 0,
    {
        proof {
            lemma2_to64();
        }
        let exponent: u64 = magnitude / LEADING_BIT;
        let fraction: u64 = magnitude % LEADING_BIT;
        if exponent == 0 {
            assert(fraction * pow2(0) == fraction) by (nonlinear_arith)
                requires
                    pow2(0) == 1,
            ;
            (fraction, 0)
        } else {
            (LEADING_BIT + fraction, (exponent - 1) as u32)
        }
    }

    pub fn is_nan(self) -> (r: bool)
        ensures
            r == self.nan(),
    {
        self.get_magnitude() > INFINITY_BITS
    }

    /// `self < other`.
    pub fn lt(self, other: Self) -> (r: bool)
        ensures
            r == less(self, other),
    {
        let a: u64 = self.get_magnitude();
        let b: u64 = other.get_magnitude();
        if a > INFINITY_BITS || b > INFINITY_BITS {
            false
        } else if self.is_negative() {
            if other.is_negative() {
                b < a
            } else {
                a > 0 || b > 0
            }
        } else if other.is_negative() {
            false
        } else {
            a < b
        }
    }

    /// `self <= other`.
    pub fn le(self, other: Self) -> (r: bool)
        ensures
            r == at_most(self, other),
    {
        !self.is_nan() && !other.is_nan() && !other.lt(self)
    }

    /// `-self`.
    pub fn neg(self) -> (r: Self)
        ensures
            r == opposite(self),
    {
        Self::assemble(!self.is_negative(), self.get_magnitude())
    }

    /// `self` held between `low` and `high`.
    pub fn clamp(self, low: Self, high: Self) -> (r: Self)
        requires
            at_most(low, high),
        ensures
            r == clamped(self, low, high),
    {
        if self.lt(low) {
            low
        } else if high.lt(self) {
            high
        } else {
            self
        }
    }

    pub fn max(self, other: Self) -> (r: Self)
        ensures
            r == greater_of(self, other),
    {
        if self.is_nan() || self.lt(other) {
            other
        } else {
            self
        }
    }

    pub fn min(self, other: Self) -> (r: Self)
        ensures
            r == lesser_of(self, other),
    {
        if self.is_nan() || other.lt(self) {
            other
        } else {
            self
        }
    }

    /// `self * other`.
    pub fn mul(self, other: Self) -> (r: Self)
        ensures
            r == product(self, other),
    {
        let a: u64 = self.get_magnitude();
        let b: u64 = other.get_magnitude();
        let negative = self.is_negative() != other.is_negative();
        if a > INFINITY_BITS || b > INFINITY_BITS || (a == INFINITY_BITS && b == 0) || (a == 0
            && b == INFINITY_BITS) {
            return Binary64 { bits: 0x7FF8_0000_0000_0000 };
        }
        if a == INFINITY_BITS || b == INFINITY_BITS {
            return Self::assemble(negative, INFINITY_BITS);
        }
        let (s, i) = Self::parts(a);
        let (t, j) = Self::parts(b);
        let ghost num = units_of(a as nat) * units_of(b as nat);
        let ghost den = one_in_units();
        assert(s * t < 0x400_0000_0000_0000_0000_0000_0000) by (nonlinear_arith)
            requires
                s < 0x20_0000_0000_0000,
                t < 0x20_0000_0000_0000,
        ;
        let m: u128 = (s as u128) * (t as u128);
        proof {
            lemma_pow2_pos(1074);
            lemma_pow2_pos((i + j) as nat);
            lemma_pow2_adds(i as nat, j as nat);
            assert(num * pow2(1074) == m * (den * pow2((i + j) as nat))) by (nonlinear_arith)
                requires
                    num == (s * pow2(i as nat)) * (t * pow2(j as nat)),
                    m == s * t,
                    den == pow2(1074),
                    pow2((i + j) as nat) == pow2(i as nat) * pow2(j as nat),
            ;
            assert(m * (den * pow2((i + j) as nat)) < (m + 1) * (den * pow2((i + j) as nat)))
                by (nonlinear_arith)
                requires
                    den > 0,
                    pow2((i + j) as nat) > 0,
            ;
        }
        let bits: u64 = round(m, i + j, 1074, false, Ghost(num), Ghost(den));
        Self::assemble(negative, bits)
    }

    /// `self / other`.
    pub fn div(self, other: Self) -> (r: Self)
        ensures
            r == quotient(self, other),
    {
        let a: u64 = self.get_magnitude();
        let b: u64 = other.get_magnitude();
        let negative = self.is_negative() != other.is_negative();
        if a > INFINITY_BITS || b > INFINITY_BITS || (a == INFINITY_BITS && b == INFINITY_BITS) || (
        a == 0 && b == 0) {
            return Binary64 { bits: 0x7FF8_0000_0000_0000 };
        }
        if a == INFINITY_BITS || b == 0 {
            return Self::assemble(negative, INFINITY_BITS);
        }
        if b == INFINITY_BITS {
            return Self::assemble(negative, 0);
        }
        let (s, i) = Self::parts(a);
        let (t, j) = Self::parts(b);
        let ghost num = units_of(a as nat) * one_in_units();
        let ghost den = units_of(b as nat);
        proof {
            lemma_pow2_pos(j as nat);
            assert(den > 0) by (nonlinear_arith)
                requires
                    den == t * pow2(j as nat),
                    t > 0,
                    pow2(j as nat) > 0,
            ;
        }
        if a == 0 {
            proof {
                lemma_pow2_pos(0);
                assert(num * pow2(0) == 0 * (den * pow2(0))) by (nonlinear_arith)
                    requires
                        num == (s * pow2(i as nat)) * one_in_units(),
                        s == 0,
                ;
                assert(0 * (den * pow2(0)) < (0 + 1) * (den * pow2(0))) by (nonlinear_arith)
                    requires
                        den > 0,
                        pow2(0) > 0,
                ;
            }
            let bits: u64 = round(0, 0, 0, false, Ghost(num), Ghost(den));
            return Self::assemble(negative, bits);
        }
        let (n, c) = Self::normalize(s);
        let shift: u128 = 0x400_0000_0000_0000_0000;
        assert(n * shift < 0x8000_0000_0000_0000_0000_0000_0000_0000) by (nonlinear_arith)
            requires
                n < 0x20_0000_0000_0000,
                shift == 0x400_0000_0000_0000_0000,
        ;
        let scaled: u128 = (n as u128) * shift;
        let q: u128 = scaled / (t as u128);
        let rest: u128 = scaled % (t as u128);
        proof {
            lemma_fundamental_div_mod(scaled as int, t as int);
            assert(q <= scaled) by (nonlinear_arith)
                requires
                    scaled == t * q + rest,
                    rest >= 0,
                    q >= 0,
                    t >= 1,
            ;
            assert(q >= 0x40_0000_0000_0000) by (nonlinear_arith)
                requires
                    scaled == t * q + rest,
                    0 <= rest < t,
                    t < 0x20_0000_0000_0000,
                    scaled == n * 0x400_0000_0000_0000_0000,
                    n >= 0x10_0000_0000_0000,
            ;
            let x = (i + 1074) as nat;
            let y = (c + 74 + j) as nat;
            lemma_pow2_adds(i as nat, 1074);
            lemma_pow2_adds(c as nat, 74);
            lemma_pow2_adds((c + 74) as nat, j as nat);
            lemma_pow2_adds(64, 10);
            lemma2_to64();
            lemma_pow2_pos(x);
            assert(pow2(74) == shift) by (nonlinear_arith)
                requires
                    pow2(74) == 0x1_0000_0000_0000_0000 * 0x400,
                    shift == 0x400_0000_0000_0000_0000,
            ;
            let p = pow2(i as nat);
            let one = one_in_units();
            let w = den * pow2(x);
            // num * 2^y = (s * 2^c) * 2^74 * 2^j * 2^i * one
            assert(num * pow2(y) == scaled * (pow2(j as nat) * pow2(x))) by (nonlinear_arith)
                requires
                    num == (s * p) * one,
                    pow2(y) == (pow2(c as nat) * pow2(74)) * pow2(j as nat),
                    pow2(x) == p * one,
                    n == s * pow2(c as nat),
                    scaled == n * pow2(74),
            ;
            let v = pow2(j as nat) * pow2(x);
            assert(v > 0) by (nonlinear_arith)
                requires
                    v == pow2(j as nat) * pow2(x),
                    pow2(j as nat) > 0,
                    pow2(x) > 0,
            ;
            assert(w == t * v) by (nonlinear_arith)
                requires
                    w == (t * pow2(j as nat)) * pow2(x),
                    v == pow2(j as nat) * pow2(x),
            ;
            assert(q * w <= scaled * v < (q + 1) * w && (rest == 0 <==> scaled * v == q * w))
                by (nonlinear_arith)
                requires
                    scaled == t * q + rest,
                    0 <= rest < t,
                    w == t * v,
                    v > 0,
            ;
        }
        let bits: u64 = round(q, i + 1074, c + 74 + j, rest != 0, Ghost(num), Ghost(den));
        Self::assemble(negative, bits)
    }

    /// A significand shifted up until its leading bit is set, and by how many places.
    fn normalize(s: u64) -> (r: (u64, u32))
        requires
            0 < s < 0x20_0000_0000_0000,
        ensures
            r.0 == s * pow2(r.1 as nat),
            0x10_0000_0000_0000 <= r.0 < 0x20_0000_0000_0000,
            r.1 <= 52,
    {
        proof {
            lemma2_to64();
            lemma2_to64_rest();
            assert(s * pow2(0) == s) by (nonlinear_arith)
                requires
                    pow2(0) == 1,
            ;
        }
        let mut n: u64 = s;
        let mut c: u32 = 0;
        while n < LEADING_BIT
            invariant
                s > 0,
                n == s * pow2(c as nat),
                n < 0x20_0000_0000_0000,
                c <= 52,
                pow2(52) == 0x10_0000_0000_0000,
            decreases 0x20_0000_0000_0000 - n,
        {
            proof {
                lemma_pow2_unfold((c + 1) as nat);
                lemma_pow2_pos(c as nat);
                assert(n > 0 && n >= pow2(c as nat)) by (nonlinear_arith)
                    requires
                        n == s * pow2(c as nat),
                        s > 0,
                        pow2(c as nat) > 0,
                ;
                assert(2 * n == s * (2 * pow2(c as nat))) by (nonlinear_arith)
                    requires
                        n == s * pow2(c as nat),
                ;
            }
            n = 2 * n;
            c = c + 1;
        }
        (n, c)
    }

    /// The sum of two finite numbers, the first of which has the larger power of two.
    fn add_parts(
        s: u64,
        i: u32,
        s_negative: bool,
        t: u64,
        j: u32,
        t_negative: bool,
        Ghost(num): Ghost<int>,
    ) -> (r: Self)
        requires
            s < 0x20_0000_0000_0000,
            t < 0x20_0000_0000_0000,
            j <= i <= 2045,
            i > 0 ==> s >= 0x10_0000_0000_0000,
            num == (if s_negative {
                -(s * pow2(i as nat))
            } else {
                s * pow2(i as nat)
            }) + (if t_negative {
                -(t * pow2(j as nat))
            } else {
                t * pow2(j as nat)
            }),
            num != 0,
        ensures
            r == nearest_signed(num, 1),
    {
        let ghost p = pow2(i as nat);
        let ghost q = pow2(j as nat);
        let d: u32 = i - j;
        proof {
            lemma2_to64();
            lemma_pow2_pos(i as nat);
            lemma_pow2_pos(j as nat);
        }
        if d <= 64 || t == 0 {
            let (m, x, negative) = if t == 0 {
                assert(t * q == 0);
                (s as u128, i, s_negative)
            } else {
                let ghost e = pow2(d as nat);
                let shift: u128 = two_to(d);
                proof {
                    lemma_pow2_adds(d as nat, j as nat);
                    if d < 64 {
                        lemma_pow2_strictly_increases(d as nat, 64);
                    }
                    assert(s * shift < 0x20_0000_0000_0000_0000_0000_0000_0000) by (nonlinear_arith)
                        requires
                            s < 0x20_0000_0000_0000,
                            0 < shift <= 0x1_0000_0000_0000_0000,
                    ;
                }
                let high: u128 = (s as u128) * shift;
                let low: u128 = t as u128;
                assert(s * p == high * q) by (nonlinear_arith)
                    requires
                        p == e * q,
                        high == s * e,
                ;
                if s_negative == t_negative {
                    assert((high + low) * q == high * q + low * q) by (nonlinear_arith);
                    (high + low, j, s_negative)
                } else if high >= low {
                    assert((high - low) * q == high * q - low * q) by (nonlinear_arith);
                    (high - low, j, s_negative)
                } else {
                    assert((low - high) * q == low * q - high * q) by (nonlinear_arith);
                    (low - high, j, t_negative)
                }
            };
            let ghost total: nat = if num < 0 {
                (-num) as nat
            } else {
                num as nat
            };
            proof {
                lemma_pow2_pos(x as nat);
                let w = pow2(x as nat);
                assert(m * w >= 0) by (nonlinear_arith)
                    requires
                        m >= 0,
                        w > 0,
                ;
                assert(num == (if negative {
                    -(m * w)
                } else {
                    m * w
                }));
                assert(1 * w == w);
                assert(total * pow2(0) == total) by (nonlinear_arith)
                    requires
                        pow2(0) == 1,
                ;
                assert(m * w < (m + 1) * w) by (nonlinear_arith)
                    requires
                        w > 0,
                ;
            }
            let bits: u64 = round(m, x, 0, false, Ghost(total), Ghost(1));
            Self::assemble(negative, bits)
        } else {
            // The smaller term is below one step of 2^(i - 11) units.
            let m: u128 = if s_negative == t_negative {
                2048 * (s as u128)
            } else {
                2048 * (s as u128) - 1
            };
            let ghost total: nat = if num < 0 {
                (-num) as nat
            } else {
                num as nat
            };
            proof {
                let x = (i - 11) as nat;
                let w = pow2(x);
                lemma_pow2_adds(x, 11);
                lemma_pow2_adds((i - 65) as nat, 54);
                lemma_pow2_unfold(54);
                lemma2_to64_rest();
                lemma_pow2_pos(x);
                if j < i - 65 {
                    lemma_pow2_strictly_increases(j as nat, (i - 65) as nat);
                }
                assert(s * p == (2048 * s) * w) by (nonlinear_arith)
                    requires
                        p == w * 2048,
                ;
                assert(0 < t * q < w) by (nonlinear_arith)
                    requires
                        0 < t < 0x20_0000_0000_0000,
                        0 < q <= pow2((i - 65) as nat),
                        w == pow2((i - 65) as nat) * 0x40_0000_0000_0000,
                ;
                assert(((2048 * s) - 1) * w == (2048 * s) * w - w) by (nonlinear_arith);
                assert(((2048 * s) + 1) * w == (2048 * s) * w + w) by (nonlinear_arith);
                assert((2048 * s) * w >= w) by (nonlinear_arith)
                    requires
                        s >= 1,
                        w > 0,
                ;
                assert(1 * w == w);
                assert(total * pow2(0) == total) by (nonlinear_arith)
                    requires
                        pow2(0) == 1,
                ;
                assert((num < 0) == s_negative);
            }
            let bits: u64 = round(m, i - 11, 0, true, Ghost(total), Ghost(1));
            Self::assemble(s_negative, bits)
        }
    }

    /// `self + other`.
    pub fn add(self, other: Self) -> (r: Self)
        ensures
            r == sum(self, other),
    {
        let a: u64 = self.get_magnitude();
        let b: u64 = other.get_magnitude();
        let a_negative = self.is_negative();
        let b_negative = other.is_negative();
        if a > INFINITY_BITS || b > INFINITY_BITS || (a == INFINITY_BITS && b == INFINITY_BITS
            && a_negative != b_negative) {
            return Binary64 { bits: 0x7FF8_0000_0000_0000 };
        }
        if a == INFINITY_BITS {
            return self;
        }
        if b == INFINITY_BITS {
            return other;
        }
        proof {
            lemma_units_increase(a as nat, b as nat);
            lemma_units_increase(b as nat, a as nat);
            lemma_units_increase(0, a as nat);
            lemma_units_increase(0, b as nat);
        }
        if (a == 0 && b == 0) || (a_negative != b_negative && a == b) {
            return Self::assemble(a_negative && b_negative, 0);
        }
        let (s, i) = Self::parts(a);
        let (t, j) = Self::parts(b);
        let ghost num = self.units() + other.units();
        if i >= j {
            Self::add_parts(s, i, a_negative, t, j, b_negative, Ghost(num))
        } else {
            Self::add_parts(t, j, b_negative, s, i, a_negative, Ghost(num))
        }
    }

    /// `self - other`.
    pub fn sub(self, other: Self) -> (r: Self)
        ensures
            r == difference(self, other),
    {
        self.add(other.neg())
    }

    /// The number nearest to a whole number of the given sign.
    fn from_whole(negative: bool, n: u128) -> (r: Self)
        requires
            n < 0x8000_0000_0000_0000_0000_0000_0000_0000,
            negative ==> n > 0,
        ensures
            r == integer(if negative {
                -(n as int)
            } else {
                n as int
            }),
    {
        let ghost one = one_in_units();
        let ghost num = (n * one) as nat;
        proof {
            lemma2_to64();
            lemma_pow2_pos(1074);
            assert(n * one >= 0) by (nonlinear_arith);
            assert(n > 0 ==> n * one > 0) by (nonlinear_arith)
                requires
                    one > 0,
            ;
            assert((-(n as int)) * one == -(n * one)) by (nonlinear_arith);
            assert(num * pow2(0) == num) by (nonlinear_arith)
                requires
                    pow2(0) == 1,
            ;
            assert(1 * one == one);
            assert(n * one < (n + 1) * one) by (nonlinear_arith)
                requires
                    one > 0,
            ;
        }
        let bits: u64 = round(n, 1074, 0, false, Ghost(num), Ghost(1));
        Self::assemble(negative, bits)
    }

    /// The number nearest to `n`.
    pub fn from_u64(n: u64) -> (r: Self)
        ensures
            r == integer(n as int),
    {
        Self::from_whole(false, n as u128)
    }

    /// The number nearest to `p / q`, for whole numbers below 2^53.
    pub fn ratio(p: u64, q: u64) -> (r: Self)
        ensures
            r == ratio(p as int, q as int),
    {
        Self::from_u64(p).div(Self::from_u64(q))
    }

    /// The number nearest to a count of nanoseconds.
    pub fn from_nanos(n: u128) -> (r: Self)
        requires
            n < 0x8000_0000_0000_0000_0000_0000_0000_0000,
        ensures
            r == integer(n as int),
    {
        Self::from_whole(false, n)
    }

    /// The number nearest to `n`.
    pub fn from_isize(n: isize) -> (r: Self)
        ensures
            r == integer(n as int),
    {
        if n < 0 {
            Self::from_whole(true, (-(n as i128)) as u128)
        } else {
            Self::from_whole(false, n as u128)
        }
    }

    /// The whole part towards zero, held to the range of `isize`; zero for NaN.
    pub fn to_isize(self) -> (r: isize)
        ensures
            r == whole_part(self),
    {
        let a: u64 = self.get_magnitude();
        if a > INFINITY_BITS {
            return 0;
        }
        let whole: u128 = Self::whole_magnitude(a);
        if self.is_negative() {
            let limit: u128 = (-(isize::MIN as i128)) as u128;
            if whole >= limit {
                isize::MIN
            } else {
                (-(whole as i128)) as isize
            }
        } else {
            if whole > isize::MAX as u128 {
                isize::MAX
            } else {
                whole as isize
            }
        }
    }

    /// The whole part of a magnitude, exact up to 2^64 and above that only known to be
    /// above.
    fn whole_magnitude(a: u64) -> (whole: u128)
        requires
            a <= INFINITY_BITS,
        ensures
            whole == units_of(a as nat) / one_in_units() || (whole >= 0x1_0000_0000_0000_0000
                && units_of(a as nat) / one_in_units() >= 0x1_0000_0000_0000_0000),
            whole < 0x8000_0000_0000_0000_0000_0000_0000_0000,
    {
        let ghost one = one_in_units();
        proof {
            lemma2_to64();
            lemma2_to64_rest();
            lemma_pow2_pos(1074);
        }
        if a >= 0x43F0_0000_0000_0000 {
            proof {
                lemma_units_increase(0x43F0_0000_0000_0000, a as nat);
                lemma_pow2_adds(1074, 12);
                lemma_pow2_adds(64, 1074);
                let u = units_of(a as nat);
                assert(u >= 0x1_0000_0000_0000_0000 * one) by (nonlinear_arith)
                    requires
                        u >= 0x10_0000_0000_0000 * (one * 0x1000),
                ;
                lemma_fundamental_div_mod(u as int, one as int);
                assert(u / one >= 0x1_0000_0000_0000_0000) by (nonlinear_arith)
                    requires
                        u >= 0x1_0000_0000_0000_0000 * one,
                        u == one * (u / one) + u % one,
                        0 <= u % one < one,
                        one > 0,
                ;
            }
            return 0x1_0000_0000_0000_0000;
        }
        let (s, i) = Self::parts(a);
        let ghost u = units_of(a as nat);
        if i >= 1074 {
            let c: u32 = i - 1074;
            assert(c <= 11);
            let shift: u128 = two_to(c);
            proof {
                lemma_pow2_adds(c as nat, 1074);
                if c < 11 {
                    lemma_pow2_strictly_increases(c as nat, 11);
                }
                assert(s * shift < 0x1_0000_0000_0000_0000) by (nonlinear_arith)
                    requires
                        s < 0x20_0000_0000_0000,
                        0 < shift <= 0x800,
                ;
                assert(u == (s * shift) * one + 0) by (nonlinear_arith)
                    requires
                        u == s * pow2(i as nat),
                        pow2(i as nat) == shift * one,
                ;
                lemma_fundamental_div_mod_converse(u as int, one as int, s * shift, 0);
            }
            (s as u128) * shift
        } else {
            let c: u32 = 1074 - i;
            proof {
                lemma_pow2_adds(c as nat, i as nat);
                lemma_pow2_pos(i as nat);
                lemma_pow2_pos(c as nat);
            }
            let ghost p = pow2(i as nat);
            let ghost e = pow2(c as nat);
            let whole: u128 = if c >= 64 {
                proof {
                    if c > 64 {
                        lemma_pow2_strictly_increases(64, c as nat);
                    }
                }
                0
            } else {
                (s as u128) / two_to(c)
            };
            proof {
                let rest = s - whole * e;
                if c >= 64 {
                    assert(whole * e == 0) by (nonlinear_arith)
                        requires
                            whole == 0,
                    ;
                } else {
                    lemma_fundamental_div_mod(s as int, e as int);
                    assert(whole * e == e * whole) by (nonlinear_arith);
                }
                assert(0 <= rest < e);
                assert(u == whole * one + rest * p) by (nonlinear_arith)
                    requires
                        u == s * p,
                        one == e * p,
                        rest == s - whole * e,
                ;
                assert(0 <= rest * p < one) by (nonlinear_arith)
                    requires
                        one == e * p,
                        0 <= rest < e,
                        p > 0,
                ;
                lemma_fundamental_div_mod_converse(
                    u as int,
                    one as int,
                    whole as int,
                    rest * p,
                );
                assert(whole <= s) by (nonlinear_arith)
                    requires
                        whole * e <= s,
                        e > 0,
                        whole >= 0,
                ;
            }
            whole
        }
    }

    /// The nanoseconds in this number of seconds, or nothing where it is NaN, negative, or
    /// 2^64 seconds and more.
    pub fn to_nanos(self) -> (r: Option<u128>)
        ensures
            r == (if self.nan() || self.order() < 0 || nanos_of_seconds(self) > MAX_NANOS {
                None::<u128>
            } else {
                Some(nanos_of_seconds(self) as u128)
            }),
    {
        let ghost one = one_in_units();
        let a: u64 = self.get_magnitude();
        if a > INFINITY_BITS || (self.is_negative() && a > 0) {
            return None;
        }
        let ghost u = units_of(a as nat);
        proof {
            lemma2_to64();
            lemma2_to64_rest();
            lemma_pow2_pos(1074);
        }
        if a >= 0x43F0_0000_0000_0000 {
            proof {
                lemma_units_increase(0x43F0_0000_0000_0000, a as nat);
                lemma_pow2_adds(1074, 12);
                let n = u * 1_000_000_000;
                lemma_fundamental_div_mod(n as int, one as int);
                assert(n / one >= 18_446_744_073_709_551_616_000_000_000) by (nonlinear_arith)
                    requires
                        u >= 0x10_0000_0000_0000 * (one * 0x1000),
                        n == u * 1_000_000_000,
                        n == one * (n / one) + n % one,
                        0 <= n % one < one,
                        one > 0,
                ;
            }
            return None;
        }
        let (s, i) = Self::parts(a);
        if i >= 1074 {
            let c: u32 = i - 1074;
            let shift: u128 = two_to(c);
            proof {
                lemma_pow2_adds(c as nat, 1074);
                if c < 11 {
                    lemma_pow2_strictly_increases(c as nat, 11);
                }
                assert(s * shift < 0x1_0000_0000_0000_0000) by (nonlinear_arith)
                    requires
                        s < 0x20_0000_0000_0000,
                        0 < shift <= 0x800,
                ;
                let n = s * shift * 1_000_000_000;
                assert(u * 1_000_000_000 == n * one + 0) by (nonlinear_arith)
                    requires
                        u == s * pow2(i as nat),
                        pow2(i as nat) == shift * one,
                        n == s * shift * 1_000_000_000,
                ;
                lemma_fundamental_div_mod_converse((u * 1_000_000_000) as int, one as int, n, 0);
            }
            Some((s as u128) * shift * 1_000_000_000)
        } else {
            let c: u32 = 1074 - i;
            let n: u128 = (s as u128) * 1_000_000_000;
            proof {
                lemma_pow2_adds(c as nat, i as nat);
                lemma_pow2_pos(i as nat);
                lemma_pow2_pos(c as nat);
                let p = pow2(i as nat);
                assert(u * 1_000_000_000 == n * p) by (nonlinear_arith)
                    requires
                        u == s * p,
                        n == s * 1_000_000_000,
                ;
                lemma_half_even_scaled(n as nat, pow2(c as nat), p);
            }
            if c >= 127 {
                proof {
                    lemma_pow2_adds(63, 64);
                    lemma_pow2_unfold(64);
                    if c > 127 {
                        lemma_pow2_strictly_increases(127, c as nat);
                    }
                    let e = pow2(c as nat);
                    assert(e >= 0x8000_0000_0000_0000 * 0x1_0000_0000_0000_0000);
                    lemma_fundamental_div_mod_converse(n as int, e as int, 0, n as int);
                }
                return Some(0);
            }
            let e: u128 = two_to(c);
            let q: u128 = n / e;
            let r: u128 = n % e;
            proof {
                lemma_fundamental_div_mod(n as int, e as int);
                assert(q <= n) by (nonlinear_arith)
                    requires
                        n == e * q + r,
                        r >= 0,
                        e >= 1,
                        q >= 0,
                ;
            }
            if r > e - r || (r == e - r && q % 2 == 1) {
                Some(q + 1)
            } else {
                Some(q)
            }
        }
    }
}

/// Numbers of one sign are ordered as their bit patterns.
pub proof fn lemma_units_increase(a: nat, b: nat)
    ensures
        a < b ==> units_of(a) < units_of(b),
{
    if a < b {
        let h: nat = 0x10_0000_0000_0000;
        let i = a / h;
        let j = b / h;
        let f = a % h;
        let g = b % h;
        lemma2_to64();
        if j > 0 {
            let q = pow2((j - 1) as nat);
            lemma_pow2_pos((j - 1) as nat);
            if i == j {
                assert((h + f) * q < (h + g) * q) by (nonlinear_arith)
                    requires
                        f < g,
                        q > 0,
                ;
            } else if i == 0 {
                assert((h + g) * q >= h) by (nonlinear_arith)
                    requires
                        g >= 0,
                        h >= 0,
                        q >= 1,
                ;
            } else {
                let p = pow2((i - 1) as nat);
                lemma_pow2_unfold(i as nat);
                if i < j - 1 {
                    lemma_pow2_strictly_increases(i as nat, (j - 1) as nat);
                }
                lemma_pow2_pos((i - 1) as nat);
                assert((h + f) * p < (h + g) * q) by (nonlinear_arith)
                    requires
                        f < h,
                        g >= 0,
                        p > 0,
                        q >= 2 * p,
                ;
            }
        }
    }
}

} // verus!
