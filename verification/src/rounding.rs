//! Rounding of exact ratios to the binary64 format.
//!
//! Magnitudes are measured in units of 2^-1074, the smallest positive binary64
//! number. Every finite binary64 number is then a whole number of units, and the
//! exact result of each arithmetic operation is a ratio of whole numbers.

use vstd::arithmetic::div_mod::{lemma_fundamental_div_mod, lemma_fundamental_div_mod_converse};
use vstd::arithmetic::power2::{
    lemma2_to64, lemma2_to64_rest, lemma_pow2_adds, lemma_pow2_pos, lemma_pow2_strictly_increases,
    lemma_pow2_unfold, pow2,
};
use vstd::prelude::*;

verus! {

/// 2^52, the weight of the implicit leading bit of a significand.
pub const LEADING_BIT: u64 = 0x10_0000_0000_0000;

/// The bit pattern of positive infinity.
pub const INFINITY_BITS: u64 = 0x7FF0_0000_0000_0000;

/// The whole number nearest to `num / den`, the even one where two are equally near.
pub open spec fn half_even(num: nat, den: nat) -> nat {
    let floor = num / den;
    let rest = num % den;
    if 2 * rest > den || (2 * rest == den && floor % 2 == 1) {
        floor + 1
    } else {
        floor
    }
}

/// The least `k` for which `num / den` is below `2^(k + 53)` units, so that numbers
/// of this size are spaced `2^k` units apart.
pub open spec fn binade(num: nat, den: nat) -> nat
    decreases num - den,
    when den > 0
{
    if num < 0x20_0000_0000_0000 * den {
        0
    } else {
        1 + binade(num, 2 * den)
    }
}

/// The bit pattern, without the sign, of the binary64 number nearest to `num / den`
/// units, ties to even, with overflow to infinity.
pub open spec fn nearest(num: nat, den: nat) -> nat {
    let k = binade(num, den);
    let bits = 0x10_0000_0000_0000 * k + half_even(num, den * pow2(k));
    if bits < INFINITY_BITS {
        bits as nat
    } else {
        INFINITY_BITS as nat
    }
}

/// `m + f` steps of `2^x / 2^y` units, for some `0 <= f < 1` that is zero exactly when
/// `inexact` is not set, make up `num / den`.
pub open spec fn brackets(num: nat, den: nat, m: nat, x: nat, y: nat, inexact: bool) -> bool {
    &&& m * (den * pow2(x)) <= num * pow2(y) < (m + 1) * (den * pow2(x))
    &&& inexact <==> num * pow2(y) != m * (den * pow2(x))
}

pub proof fn lemma_binade(num: nat, den: nat, k: nat)
    requires
        den > 0,
        num < 0x20_0000_0000_0000 * (den * pow2(k)),
        k == 0 || num >= 0x10_0000_0000_0000 * (den * pow2(k)),
    ensures
        binade(num, den) == k,
    decreases k,
{
    lemma2_to64();
    if k > 0 {
        lemma_pow2_unfold(k);
        lemma_pow2_pos((k - 1) as nat);
        let p = pow2((k - 1) as nat);
        assert(den * pow2(k) == (2 * den) * p) by (nonlinear_arith)
            requires
                pow2(k) == 2 * p,
        ;
        assert((2 * den) * p >= 2 * den) by (nonlinear_arith)
            requires
                p >= 1,
        ;
        lemma_binade(num, 2 * den, (k - 1) as nat);
    } else {
        assert(den * pow2(k) == den) by (nonlinear_arith)
            requires
                pow2(k) == 1,
        ;
    }
}

pub proof fn lemma_half_even_scaled(num: nat, den: nat, c: nat)
    requires
        den > 0,
        c > 0,
    ensures
        half_even(num * c, den * c) == half_even(num, den),
{
    let q = num / den;
    let r = num % den;
    lemma_fundamental_div_mod(num as int, den as int);
    assert(num * c == q * (den * c) + r * c) by (nonlinear_arith)
        requires
            num == den * q + r,
    ;
    assert(0 <= r * c < den * c) by (nonlinear_arith)
        requires
            0 <= r < den,
            c > 0,
    ;
    assert(den * c > 0) by (nonlinear_arith)
        requires
            den > 0,
            c > 0,
    ;
    lemma_fundamental_div_mod_converse(
        (num * c) as int,
        (den * c) as int,
        q as int,
        (r * c) as int,
    );
    assert((2 * r > den <==> 2 * (r * c) > den * c) && (2 * r == den <==> 2 * (r * c) == den * c))
        by (nonlinear_arith)
        requires
            c > 0,
    ;
}

/// Rounding `m + f` to a multiple of the even number `p` needs only `m` and whether
/// the fraction `f` is zero.
pub proof fn lemma_half_even_bracketed(a: nat, w: nat, m: nat, p: nat, inexact: bool)
    requires
        w > 0,
        p > 0,
        p % 2 == 0,
        m * w <= a < (m + 1) * w,
        inexact <==> a != m * w,
    ensures
        half_even(a, w * p) == (if 2 * (m % p) > p || (2 * (m % p) == p && (inexact || (m / p) % 2
            == 1)) {
            m / p + 1
        } else {
            m / p
        }),
{
    let q = m / p;
    let r = m % p;
    let t = (a - m * w) as nat;
    lemma_fundamental_div_mod(m as int, p as int);
    assert(t < w) by (nonlinear_arith)
        requires
            t == a - m * w,
            a < (m + 1) * w,
    ;
    assert(a == q * (w * p) + (r * w + t)) by (nonlinear_arith)
        requires
            m == p * q + r,
            a == m * w + t,
    ;
    assert(0 <= r * w + t < w * p) by (nonlinear_arith)
        requires
            0 <= r <= p - 1,
            0 <= t < w,
    ;
    lemma_fundamental_div_mod_converse(a as int, (w * p) as int, q as int, (r * w + t) as int);
    if 2 * r > p {
        assert(2 * (r * w + t) > w * p) by (nonlinear_arith)
            requires
                2 * r >= p + 1,
                w > 0,
        ;
    } else if 2 * r == p {
        assert(2 * (r * w + t) == w * p + 2 * t) by (nonlinear_arith)
            requires
                2 * r == p,
        ;
    } else {
        assert(2 * r <= p - 2);
        assert(2 * (r * w + t) < w * p) by (nonlinear_arith)
            requires
                2 * r <= p - 2,
                0 <= t < w,
        ;
    }
}

proof fn lemma_pow2_127()
    ensures
        pow2(127) == 0x8000_0000_0000_0000_0000_0000_0000_0000,
{
    lemma2_to64();
    lemma_pow2_adds(64, 63);
    lemma_pow2_unfold(64);
    assert(0x1_0000_0000_0000_0000 * 0x8000_0000_0000_0000
        == 0x8000_0000_0000_0000_0000_0000_0000_0000) by (nonlinear_arith);
}

/// The spacing found for a ratio is the one that its size asks for.
pub proof fn lemma_binade_bounds(num: nat, den: nat)
    requires
        den > 0,
    ensures
        num < 0x20_0000_0000_0000 * (den * pow2(binade(num, den))),
        binade(num, den) == 0 || num >= 0x10_0000_0000_0000 * (den * pow2(binade(num, den))),
    decreases num - den,
{
    lemma2_to64();
    let k = binade(num, den);
    if num < 0x20_0000_0000_0000 * den {
        assert(den * pow2(k) == den) by (nonlinear_arith)
            requires
                pow2(k) == 1,
        ;
    } else {
        lemma_binade_bounds(num, 2 * den);
        let j = binade(num, 2 * den);
        lemma_pow2_unfold(k);
        assert((2 * den) * pow2(j) == den * pow2(k)) by (nonlinear_arith)
            requires
                pow2(k) == 2 * pow2(j),
        ;
        if j == 0 {
            assert((2 * den) * pow2(j) == 2 * den) by (nonlinear_arith)
                requires
                    pow2(j) == 1,
            ;
        }
    }
}

/// Rounding to whole numbers keeps the order of ratios.
pub proof fn lemma_half_even_monotone(n1: nat, d1: nat, n2: nat, d2: nat)
    requires
        d1 > 0,
        d2 > 0,
        n1 * d2 <= n2 * d1,
    ensures
        half_even(n1, d1) <= half_even(n2, d2),
{
    let q1 = n1 / d1;
    let r1 = n1 % d1;
    let q2 = n2 / d2;
    let r2 = n2 % d2;
    lemma_fundamental_div_mod(n1 as int, d1 as int);
    lemma_fundamental_div_mod(n2 as int, d2 as int);
    let dd = d1 * d2;
    assert(n1 * d2 == q1 * dd + r1 * d2) by (nonlinear_arith)
        requires
            n1 == d1 * q1 + r1,
            dd == d1 * d2,
    ;
    assert(n2 * d1 == q2 * dd + r2 * d1) by (nonlinear_arith)
        requires
            n2 == d2 * q2 + r2,
            dd == d1 * d2,
    ;
    assert(r2 * d1 < dd && r1 * d2 >= 0) by (nonlinear_arith)
        requires
            0 <= r2 < d2,
            r1 >= 0,
            d2 > 0,
            d1 > 0,
            dd == d1 * d2,
    ;
    if q1 > q2 {
        assert(q1 * dd >= q2 * dd + dd) by (nonlinear_arith)
            requires
                q1 >= q2 + 1,
                dd >= 0,
        ;
        assert(false);
    }
    if q1 == q2 {
        assert((2 * r1 > d1 ==> 2 * r2 > d2) && (2 * r1 == d1 ==> 2 * r2 >= d2))
            by (nonlinear_arith)
            requires
                r1 * d2 <= r2 * d1,
                d1 > 0,
                d2 > 0,
        ;
    }
}

/// Rounding to binary64 keeps the order of ratios.
pub proof fn lemma_nearest_monotone(n1: nat, d1: nat, n2: nat, d2: nat)
    requires
        d1 > 0,
        d2 > 0,
        n1 * d2 <= n2 * d1,
    ensures
        nearest(n1, d1) <= nearest(n2, d2),
{
    let k1 = binade(n1, d1);
    let k2 = binade(n2, d2);
    let p1 = pow2(k1);
    let p2 = pow2(k2);
    lemma_binade_bounds(n1, d1);
    lemma_binade_bounds(n2, d2);
    lemma_pow2_pos(k1);
    lemma_pow2_pos(k2);
    assert(d1 * p1 > 0 && d2 * p2 > 0) by (nonlinear_arith)
        requires
            d1 > 0,
            d2 > 0,
            p1 > 0,
            p2 > 0,
    ;
    if k1 == k2 {
        assert(n1 * (d2 * p2) <= n2 * (d1 * p1)) by (nonlinear_arith)
            requires
                n1 * d2 <= n2 * d1,
                p1 == p2,
                p1 > 0,
        ;
        lemma_half_even_monotone(n1, d1 * p1, n2, d2 * p2);
    } else if k1 < k2 {
        lemma_half_even_at_most(n1, d1 * p1, 0x20_0000_0000_0000);
        lemma_half_even_at_least(n2, d2 * p2, 0x10_0000_0000_0000);
    } else {
        // n1 / d1 would be at least 2^(k1 + 52) units and n2 / d2 below that.
        lemma_pow2_adds(k2, (k1 - k2) as nat);
        lemma_pow2_unfold((k1 - k2) as nat);
        lemma_pow2_pos((k1 - k2 - 1) as nat);
        let e = pow2((k1 - k2) as nat);
        assert(n1 * d2 > n2 * d1) by (nonlinear_arith)
            requires
                n1 >= 0x10_0000_0000_0000 * (d1 * p1),
                n2 < 0x20_0000_0000_0000 * (d2 * p2),
                p1 == p2 * e,
                e >= 2,
                p2 > 0,
                d1 > 0,
                d2 > 0,
        {
            assert(n1 * d2 >= 0x10_0000_0000_0000 * (d1 * p1) * d2);
            assert(n2 * d1 < 0x20_0000_0000_0000 * (d2 * p2) * d1);
            assert(d1 * p1 * d2 >= 2 * (d2 * p2 * d1));
        }
    }
}

/// A ratio of at most `c` rounds to at most `c`.
pub proof fn lemma_half_even_at_most(num: nat, den: nat, c: nat)
    requires
        den > 0,
        num <= c * den,
    ensures
        half_even(num, den) <= c,
{
    assert(num * 1 <= c * den);
    lemma_half_even_monotone(num, den, c, 1);
    assert(c / 1 == c && c % 1 == 0) by (nonlinear_arith);
}

/// A ratio of at least `c` rounds to at least `c`.
pub proof fn lemma_half_even_at_least(num: nat, den: nat, c: nat)
    requires
        den > 0,
        num >= c * den,
    ensures
        half_even(num, den) >= c,
{
    lemma_half_even_monotone(c, 1, num, den);
    assert(c / 1 == c && c % 1 == 0) by (nonlinear_arith);
}

/// The power of two with the given exponent.
pub fn two_to(e: u32) -> (r: u128)
    requires
        e < 128,
    ensures
        r == pow2(e as nat),
        r >= 1,
{
    proof {
        lemma2_to64();
    }
    let mut r: u128 = 1;
    let mut i: u32 = 0;
    while i < e
        invariant
            i <= e < 128,
            r == pow2(i as nat),
        decreases e - i,
    {
        proof {
            lemma_pow2_unfold((i + 1) as nat);
            lemma_pow2_127();
            if i + 1 < 127 {
                lemma_pow2_strictly_increases((i + 1) as nat, 127);
            }
        }
        r = 2 * r;
        i = i + 1;
    }
    proof {
        lemma_pow2_pos(e as nat);
    }
    r
}

/// The number of binary digits of `m`.
pub fn bit_length(m: u128) -> (l: u32)
    ensures
        l <= 128,
        m < pow2(l as nat),
        l > 0 ==> m >= pow2((l - 1) as nat),
        l == 0 <==> m == 0,
{
    proof {
        lemma2_to64();
    }
    let mut l: u32 = 0;
    let mut rest: u128 = m;
    while rest > 0
        invariant
            l <= 128,
            pow2(l as nat) > 0,
            rest * pow2(l as nat) <= m < (rest + 1) * pow2(l as nat),
            l > 0 ==> m >= pow2((l - 1) as nat),
            l == 0 ==> rest == m,
            l > 0 ==> m > 0,
        decreases rest,
    {
        let ghost p = pow2(l as nat);
        let ghost old_rest = rest;
        proof {
            lemma_pow2_unfold((l + 1) as nat);
            assert(m >= p) by (nonlinear_arith)
                requires
                    rest >= 1,
                    rest * p <= m,
            ;
            if l == 128 {
                lemma_pow2_127();
                lemma_pow2_unfold(128);
            }
        }
        rest = rest / 2;
        proof {
            assert(rest * (2 * p) <= old_rest * p && (old_rest + 1) * p <= (rest + 1) * (2 * p))
                by (nonlinear_arith)
                requires
                    2 * rest <= old_rest <= 2 * rest + 1,
            ;
        }
        l = l + 1;
    }
    assert((rest + 1) * pow2(l as nat) == pow2(l as nat)) by (nonlinear_arith)
        requires
            rest == 0,
    ;
    l
}

/// A ratio of `l` binary digits counted in steps of `2^x / 2^y` units has the spacing
/// that its length asks for.
proof fn lemma_binade_bracketed(num: nat, den: nat, m: nat, x: nat, y: nat, inexact: bool, l: nat)
    requires
        den > 0,
        brackets(num, den, m, x, y, inexact),
        l > 0,
        pow2((l - 1) as nat) <= m < pow2(l),
    ensures
        binade(num, den) == (if x + l > 53 + y {
            (x + l - 53 - y) as nat
        } else {
            0
        }),
{
    let k: nat = if x + l > 53 + y {
        (x + l - 53 - y) as nat
    } else {
        0
    };
    let a = num * pow2(y);
    let w = den * pow2(x);
    lemma2_to64();
    lemma2_to64_rest();
    lemma_pow2_pos(y);
    lemma_pow2_pos(x);
    lemma_pow2_pos(k);
    // 2^53 * den * 2^k * 2^y == den * 2^(53 + k + y)
    lemma_pow2_adds(k, y);
    lemma_pow2_adds(53, k + y);
    lemma_pow2_adds(52, k + y);
    let d = den * pow2(k);
    assert(0x20_0000_0000_0000 * d * pow2(y) == den * pow2(53 + (k + y))) by (nonlinear_arith)
        requires
            d == den * pow2(k),
            pow2(k + y) == pow2(k) * pow2(y),
            pow2(53 + (k + y)) == 0x20_0000_0000_0000 * pow2(k + y),
    ;
    assert(0x10_0000_0000_0000 * d * pow2(y) == den * pow2(52 + (k + y))) by (nonlinear_arith)
        requires
            d == den * pow2(k),
            pow2(k + y) == pow2(k) * pow2(y),
            pow2(52 + (k + y)) == 0x10_0000_0000_0000 * pow2(k + y),
    ;
    lemma_pow2_adds(x, l);
    assert(a < den * pow2(x + l)) by (nonlinear_arith)
        requires
            a < (m + 1) * w,
            w == den * pow2(x),
            m + 1 <= pow2(l),
            pow2(x + l) == pow2(x) * pow2(l),
    ;
    if x + l < 53 + (k + y) {
        lemma_pow2_strictly_increases(x + l, 53 + (k + y));
    }
    assert(den * pow2(x + l) <= den * pow2(53 + (k + y))) by (nonlinear_arith)
        requires
            pow2(x + l) <= pow2(53 + (k + y)),
    ;
    assert(num < 0x20_0000_0000_0000 * d) by (nonlinear_arith)
        requires
            num * pow2(y) < 0x20_0000_0000_0000 * d * pow2(y),
            pow2(y) > 0,
    ;
    if k > 0 {
        let h = (l - 1) as nat;
        lemma_pow2_adds(x, h);
        assert(x + h == 52 + (k + y));
        assert(a >= den * pow2(x + h)) by (nonlinear_arith)
            requires
                a >= m * w,
                w == den * pow2(x),
                m >= pow2(h),
                pow2(x + h) == pow2(x) * pow2(h),
        ;
        assert(num >= 0x10_0000_0000_0000 * d) by (nonlinear_arith)
            requires
                num * pow2(y) >= 0x10_0000_0000_0000 * d * pow2(y),
                pow2(y) > 0,
        ;
    }
    lemma_binade(num, den, k);
}

/// The bit pattern of the binary64 number nearest to a bracketed ratio.
pub(crate) fn round(
    m: u128,
    x: u32,
    y: u32,
    inexact: bool,
    Ghost(num): Ghost<nat>,
    Ghost(den): Ghost<nat>,
) -> (bits: u64)
    requires
        den > 0,
        brackets(num, den, m as nat, x as nat, y as nat, inexact),
        m < 0x8000_0000_0000_0000_0000_0000_0000_0000,
        x <= 8192,
        y <= 8192,
        inexact ==> m >= 0x40_0000_0000_0000,
    ensures
        bits == nearest(num, den),
        bits <= INFINITY_BITS,
{
    proof {
        lemma_pow2_pos(x as nat);
        lemma_pow2_pos(y as nat);
    }
    if m == 0 {
        proof {
            assert(num == 0) by (nonlinear_arith)
                requires
                    num * pow2(y as nat) == m * (den * pow2(x as nat)),
                    m == 0,
                    pow2(y as nat) > 0,
            ;
            lemma_nearest_zero(den);
        }
        return 0;
    }
    let l = bit_length(m);
    let k: u32 = if x + l > 53 + y {
        x + l - 53 - y
    } else {
        0
    };
    proof {
        lemma_binade_bracketed(num, den, m as nat, x as nat, y as nat, inexact, l as nat);
        lemma_pow2_pos(k as nat);
    }
    if k >= 2047 {
        return INFINITY_BITS;
    }
    let significand: u64 = round_to_spacing(m, x, y, inexact, l, k, Ghost(num), Ghost(den));
    let bits: u64 = 0x10_0000_0000_0000 * (k as u64) + significand;
    if bits < INFINITY_BITS {
        bits
    } else {
        INFINITY_BITS
    }
}

/// Zero rounds to zero.
pub proof fn lemma_nearest_zero(den: nat)
    requires
        den > 0,
    ensures
        nearest(0, den) == 0,
{
    lemma2_to64();
    lemma_binade(0, den, 0);
    assert(den * pow2(0) == den) by (nonlinear_arith)
        requires
            pow2(0) == 1,
    ;
    assert(0nat / den == 0 && 0nat % den == 0) by (nonlinear_arith)
        requires
            den > 0,
    ;
}

/// The multiple of `2^k` units nearest to a bracketed ratio of `l` binary digits.
fn round_to_spacing(
    m: u128,
    x: u32,
    y: u32,
    inexact: bool,
    l: u32,
    k: u32,
    Ghost(num): Ghost<nat>,
    Ghost(den): Ghost<nat>,
) -> (significand: u64)
    requires
        den > 0,
        brackets(num, den, m as nat, x as nat, y as nat, inexact),
        0 < m < 0x8000_0000_0000_0000_0000_0000_0000_0000,
        x <= 8192,
        y <= 8192,
        inexact ==> m >= 0x40_0000_0000_0000,
        0 < l <= 128,
        pow2((l - 1) as nat) <= m < pow2(l as nat),
        k == (if x + l > 53 + y {
            x + l - 53 - y
        } else {
            0
        }),
    ensures
        significand == half_even(num, den * pow2(k as nat)),
        significand <= 0x20_0000_0000_0000,
{
    let ghost a = num * pow2(y as nat);
    let ghost w = den * pow2(x as nat);
    proof {
        lemma2_to64();
        lemma2_to64_rest();
        lemma_pow2_pos(x as nat);
        lemma_pow2_pos(y as nat);
        lemma_pow2_pos(k as nat);
        lemma_pow2_adds(k as nat, y as nat);
        lemma_pow2_127();
        assert(w > 0) by (nonlinear_arith)
            requires
                w == den * pow2(x as nat),
                den > 0,
                pow2(x as nat) > 0,
        ;
        assert(den * pow2(k as nat) > 0) by (nonlinear_arith)
            requires
                den > 0,
                pow2(k as nat) > 0,
        ;
        // Scaled by 2^y, the ratio num / (den * 2^k) has the denominator den * 2^(k + y).
        lemma_half_even_scaled(num, den * pow2(k as nat), pow2(y as nat));
        assert((den * pow2(k as nat)) * pow2(y as nat) == den * pow2((k + y) as nat))
            by (nonlinear_arith)
            requires
                pow2((k + y) as nat) == pow2(k as nat) * pow2(y as nat),
        ;
    }
    if k + y <= x {
        let s: u32 = x - k - y;
        proof {
            if l > 53 {
                lemma_pow2_strictly_increases(53, (l - 1) as nat + 1);
            }
            if inexact && l < 55 {
                if l < 54 {
                    lemma_pow2_strictly_increases(l as nat, 54);
                }
                assert(false);
            }
            assert(l + s <= 53);
            lemma_pow2_adds(s as nat, l as nat);
            lemma_pow2_adds(s as nat, (k + y) as nat);
            lemma_pow2_pos(s as nat);
            if l + s < 53 {
                lemma_pow2_strictly_increases((l + s) as nat, 53);
            }
            assert(m * pow2(s as nat) < pow2((s + l) as nat)) by (nonlinear_arith)
                requires
                    m < pow2(l as nat),
                    pow2(s as nat) > 0,
                    pow2((s + l) as nat) == pow2(s as nat) * pow2(l as nat),
            ;
        }
        let scaled: u128 = m * two_to(s);
        proof {
            let d = den * pow2((k + y) as nat);
            assert(a == scaled * d) by (nonlinear_arith)
                requires
                    a == m * w,
                    w == den * pow2(x as nat),
                    pow2(x as nat) == pow2(s as nat) * pow2((k + y) as nat),
                    d == den * pow2((k + y) as nat),
                    scaled == m * pow2(s as nat),
            ;
            lemma_pow2_pos((k + y) as nat);
            assert(d > 0) by (nonlinear_arith)
                requires
                    d == den * pow2((k + y) as nat),
                    den > 0,
                    pow2((k + y) as nat) > 0,
            ;
            lemma_fundamental_div_mod_converse(a as int, d as int, scaled as int, 0);
        }
        scaled as u64
    } else {
        let s: u32 = k + y - x;
        proof {
            lemma_pow2_adds(s as nat, x as nat);
            lemma_pow2_pos(s as nat);
            lemma_pow2_unfold(s as nat);
            let p = pow2(s as nat);
            assert(p % 2 == 0);
            assert(den * pow2((k + y) as nat) == w * p) by (nonlinear_arith)
                requires
                    w == den * pow2(x as nat),
                    pow2((k + y) as nat) == p * pow2(x as nat),
            ;
            lemma_half_even_bracketed(a, w, m as nat, p, inexact);
        }
        if s > 127 {
            proof {
                lemma_pow2_unfold(128);
                if s > 128 {
                    lemma_pow2_strictly_increases(128, s as nat);
                }
                let p = pow2(s as nat);
                lemma_fundamental_div_mod_converse(m as int, p as int, 0, m as int);
            }
            return 0;
        }
        let p: u128 = two_to(s);
        let q: u128 = m / p;
        let r: u128 = m % p;
        proof {
            // m < 2^l <= 2^(s + 53)
            lemma_pow2_adds(s as nat, 53);
            if l < s + 53 {
                lemma_pow2_strictly_increases(l as nat, (s + 53) as nat);
            }
            lemma_fundamental_div_mod(m as int, p as int);
            assert(q < 0x20_0000_0000_0000) by (nonlinear_arith)
                requires
                    m == p * q + r,
                    r >= 0,
                    m < p * 0x20_0000_0000_0000,
                    p > 0,
            ;
        }
        if r > p - r || (r == p - r && (inexact || q % 2 == 1)) {
            (q + 1) as u64
        } else {
            q as u64
        }
    }
}

} // verus!
