//! Rounding gives the nearest number, and the even one of two that are equally near.

use crate::binary64::{
    at_most, clamped, one_in_units, opposite, product, quotient, sum, units_of, whole_part,
    Binary64,
};
use crate::ordering::lemma_with_sign;
use crate::rounding::{
    binade, half_even, lemma_binade_bounds, lemma_half_even_at_least, lemma_half_even_at_most,
    nearest,
};
use vstd::arithmetic::div_mod::lemma_fundamental_div_mod;
use vstd::arithmetic::power2::{
    lemma2_to64, lemma_pow2_adds, lemma_pow2_pos, lemma_pow2_unfold, pow2,
};
use vstd::prelude::*;

verus! {

/// A ratio rounds to a whole number that is no more than half off, and to the even one where two
/// are equally near.
pub proof fn lemma_half_even_is_nearest(num: nat, den: nat)
    requires
        den > 0,
    ensures
        ({
            let h = half_even(num, den);
            &&& 2 * num <= (2 * h + 1) * den
            &&& 2 * num >= (2 * h - 1) * den
            &&& 2 * num == (2 * h + 1) * den || 2 * num == (2 * h - 1) * den ==> h % 2 == 0
        }),
{
    let h = half_even(num, den);
    let floor = num / den;
    let rest = num % den;
    lemma_fundamental_div_mod(num as int, den as int);
    assert((2 * floor + 1) * den == 2 * (den * floor) + den) by (nonlinear_arith);
    assert((2 * floor - 1) * den == 2 * (den * floor) - den) by (nonlinear_arith);
    assert((2 * (floor + 1) - 1) * den == 2 * (den * floor) + den) by (nonlinear_arith);
    assert((2 * (floor + 1) + 1) * den == 2 * (den * floor) + 3 * den) by (nonlinear_arith);
}

/// The units of a magnitude that is `h` steps up in a binade, and those next to it.
proof fn lemma_steps(k: nat, h: nat)
    requires
        h <= 0x20_0000_0000_0000,
        k == 0 || h >= 0x10_0000_0000_0000,
    ensures
        ({
            let m = 0x10_0000_0000_0000 * k + h;
            let p = pow2(k);
            &&& units_of(m) == h * p
            &&& h < 0x20_0000_0000_0000 ==> units_of(m + 1) == (h + 1) * p
            &&& h == 0x20_0000_0000_0000 ==> units_of(m + 1) == (h + 2) * p
            &&& h > 0 && (k == 0 || h > 0x10_0000_0000_0000) ==> units_of((m - 1) as nat) == (h - 1)
                * p
        }),
{
    let s: nat = 0x10_0000_0000_0000;
    let p = pow2(k);
    lemma2_to64();
    lemma_pow2_unfold(k + 1);
    lemma_units_in_binade(k, h);
    if h < 2 * s {
        lemma_units_in_binade(k, h + 1);
    } else {
        let m = s * k + h;
        assert((m + 1) as nat == s * (k + 1) + (s + 1));
        lemma_units_in_binade(k + 1, s + 1);
        assert((s + 1) * (2 * p) == (h + 2) * p) by (nonlinear_arith)
            requires
                h == 2 * s,
        ;
    }
    if h > 0 && (k == 0 || h > s) {
        lemma_units_in_binade(k, (h - 1) as nat);
    }
}

proof fn lemma_units_in_binade(k: nat, h: nat)
    requires
        h <= 0x20_0000_0000_0000,
        k == 0 || h >= 0x10_0000_0000_0000,
    ensures
        units_of(0x10_0000_0000_0000 * k + h) == h * pow2(k),
{
    let s: nat = 0x10_0000_0000_0000;
    let m = s * k + h;
    let p = pow2(k);
    lemma2_to64();
    lemma_pow2_unfold(k + 1);
    if h < s {
        assert(m / s == 0 && m % s == h);
        assert(h * p == h) by (nonlinear_arith)
            requires
                p == 1,
        ;
    } else if h < 2 * s {
        assert(m == s * (k + 1) + (h - s));
        assert(m / s == k + 1 && m % s == h - s);
    } else {
        assert(m == s * (k + 2));
        assert(m / s == k + 2 && m % s == 0);
        assert(s * (2 * p) == h * p) by (nonlinear_arith)
            requires
                h == 2 * s,
        ;
    }
}

/// A ratio rounds to the binary64 number that is nearest: it lies between the middles to the
/// numbers below and above, and where it is one of these middles, the even number is taken.
pub proof fn lemma_nearest_is_nearest(num: nat, den: nat)
    requires
        den > 0,
        nearest(num, den) < 0x7FF0_0000_0000_0000,
    ensures
        ({
            let m = nearest(num, den);
            let above = (units_of(m) + units_of(m + 1)) * den;
            let below = (units_of((m - 1) as nat) + units_of(m)) * den;
            &&& 2 * num <= above
            &&& 2 * num == above ==> m % 2 == 0
            &&& m > 0 ==> 2 * num >= below
            &&& m > 0 && 2 * num == below ==> m % 2 == 0
        }),
{
    let s: nat = 0x10_0000_0000_0000;
    let k = binade(num, den);
    let p = pow2(k);
    let d = den * p;
    let h = half_even(num, d);
    let m = nearest(num, den);
    lemma_pow2_pos(k);
    lemma_binade_bounds(num, den);
    assert(d > 0) by (nonlinear_arith)
        requires
            den > 0,
            p > 0,
            d == den * p,
    ;
    if k > 0 {
        lemma_half_even_at_least(num, d, s);
    }
    lemma_half_even_at_most(num, d, 2 * s);
    lemma_half_even_is_nearest(num, d);
    lemma_steps(k, h);
    assert(m == s * k + h);
    assert(m % 2 == h % 2);
    let u = units_of(m);
    let a = units_of(m + 1);
    let above = (u + a) * den;
    assert(above >= (2 * h + 1) * d && (h < 2 * s ==> above == (2 * h + 1) * d) && (h == 2 * s
        ==> above == (2 * h + 1) * d + d)) by (nonlinear_arith)
        requires
            above == (u + a) * den,
            u == h * p,
            h < 2 * s ==> a == (h + 1) * p,
            h == 2 * s ==> a == (h + 2) * p,
            h <= 2 * s,
            d == den * p,
            d > 0,
    ;
    if m > 0 {
        let b = units_of((m - 1) as nat);
        let below = (b + u) * den;
        if h > 0 && (k == 0 || h > s) {
            assert(below == (2 * h - 1) * d) by (nonlinear_arith)
                requires
                    below == (b + u) * den,
                    u == h * p,
                    b == (h - 1) * p,
                    d == den * p,
            ;
        } else {
            assert(h == s && k > 0);
            let j = (k - 1) as nat;
            lemma_pow2_unfold(k);
            let q = pow2(j);
            lemma_pow2_pos(j);
            assert((m - 1) as nat == s * j + (2 * s - 1));
            lemma_units_in_binade(j, (2 * s - 1) as nat);
            assert(b == (2 * s - 1) * q);
            assert(below < 2 * (s * d)) by (nonlinear_arith)
                requires
                    below == (b + u) * den,
                    u == h * p,
                    h == s,
                    p == 2 * q,
                    b == (2 * s - 1) * q,
                    d == den * p,
                    den > 0,
                    q > 0,
            ;
            assert(s * d == s * (den * p));
        }
    }
}

/// What rounds to infinity is at least half a step beyond the greatest number.
pub proof fn lemma_overflow(num: nat, den: nat)
    requires
        den > 0,
        nearest(num, den) >= 0x7FF0_0000_0000_0000,
    ensures
        nearest(num, den) == 0x7FF0_0000_0000_0000,
        2 * num >= (units_of(0x7FEF_FFFF_FFFF_FFFF) + units_of(0x7FF0_0000_0000_0000)) * den,
{
    let s: nat = 0x10_0000_0000_0000;
    let k = binade(num, den);
    let p = pow2(k);
    let d = den * p;
    let h = half_even(num, d);
    let q = pow2(2045);
    lemma_pow2_pos(k);
    lemma_pow2_pos(2045);
    lemma_binade_bounds(num, den);
    assert(d > 0) by (nonlinear_arith)
        requires
            den > 0,
            p > 0,
            d == den * p,
    ;
    lemma_half_even_at_most(num, d, 2 * s);
    lemma_half_even_is_nearest(num, d);
    lemma_units_in_binade(2045, (2 * s - 1) as nat);
    lemma_units_in_binade(2045, 2 * s);
    assert(s * 2045 + (2 * s - 1) == 0x7FEF_FFFF_FFFF_FFFF);
    assert(s * 2045 + 2 * s == 0x7FF0_0000_0000_0000);
    let limit = (units_of(0x7FEF_FFFF_FFFF_FFFF) + units_of(0x7FF0_0000_0000_0000)) * den;
    assert(limit == (4 * s - 1) * (den * q)) by (nonlinear_arith)
        requires
            limit == ((2 * s - 1) * q + (2 * s) * q) * den,
    ;
    assert(k >= 2045);
    if k == 2045 {
        assert(h == 2 * s);
    } else {
        lemma_pow2_adds(2045, (k - 2045) as nat);
        lemma_pow2_pos((k - 2045) as nat);
        lemma_pow2_unfold((k - 2045) as nat);
        let r = pow2((k - 2045) as nat);
        lemma_pow2_pos((k - 2046) as nat);
        assert(r >= 2);
        assert(s * d >= (2 * s) * (den * q)) by (nonlinear_arith)
            requires
                d == den * p,
                p == q * r,
                r >= 2,
                den > 0,
                q > 0,
                s > 0,
        ;
        assert((4 * s - 1) * (den * q) <= (4 * s) * (den * q)) by (nonlinear_arith)
            requires
                den > 0,
                q > 0,
        ;
        assert((4 * s) * (den * q) == 2 * ((2 * s) * (den * q))) by (nonlinear_arith);
    }
}

/// What is no number stays none. An infinite term or factor outweighs a finite one, signs multiply
/// as they should, and what has no answer is no number.
pub proof fn lemma_special_values(a: Binary64, b: Binary64)
    ensures
        a.nan() || b.nan() ==> sum(a, b).nan() && product(a, b).nan() && quotient(a, b).nan(),
        a.nan() ==> opposite(a).nan(),
        a.finite() ==> sum(a, opposite(a)).magnitude() == 0 && !sum(a, opposite(a)).negative(),
        a.infinite() && b.finite() ==> sum(a, b) == a && sum(b, a) == a,
        a.infinite() && b.infinite() ==> quotient(a, b).nan() && sum(a, opposite(a)).nan(),
        a.infinite() && b.magnitude() == 0 ==> product(a, b).nan() && product(b, a).nan(),
        a.infinite() && b.order() != 0 && !b.nan() ==> product(a, b).infinite(),
        a.magnitude() == 0 && b.magnitude() == 0 ==> quotient(a, b).nan(),
        a.order() != 0 && !a.nan() && b.magnitude() == 0 ==> quotient(a, b).infinite(),
        a.finite() && b.infinite() ==> quotient(a, b).magnitude() == 0,
        !product(a, b).nan() ==> product(a, b).negative() == (a.negative() != b.negative()),
        !quotient(a, b).nan() ==> quotient(a, b).negative() == (a.negative() != b.negative()),
{
    lemma_with_sign(!a.negative(), a.magnitude());
    lemma_with_sign(false, 0);
    lemma_with_sign(true, 0);
    lemma_with_sign(false, 0x7FF0_0000_0000_0000);
    lemma_with_sign(true, 0x7FF0_0000_0000_0000);
    let one = one_in_units();
    let m = nearest(units_of(a.magnitude()) * units_of(b.magnitude()), one);
    let n = nearest(units_of(a.magnitude()) * one, units_of(b.magnitude()));
    lemma_with_sign(a.negative() != b.negative(), m);
    lemma_with_sign(a.negative() != b.negative(), n);
}

/// A number held between two others is one of the three and lies between them, and is itself where
/// it lies there.
pub proof fn lemma_clamped(a: Binary64, low: Binary64, high: Binary64)
    requires
        !a.nan(),
        at_most(low, high),
    ensures
        at_most(low, clamped(a, low, high)),
        at_most(clamped(a, low, high), high),
        at_most(low, a) && at_most(a, high) ==> clamped(a, low, high) == a,
        clamped(a, low, high) == a || clamped(a, low, high) == low || clamped(a, low, high) == high,
{
}

/// The whole part of a number beyond the range is the end of the range on that side, and that of
/// what is no number is zero.
pub proof fn lemma_whole_part_range(a: Binary64)
    ensures
        isize::MIN <= whole_part(a) <= isize::MAX,
        a.nan() ==> whole_part(a) == 0,
        !a.nan() && !a.negative() && units_of(a.magnitude()) >= isize::MAX * one_in_units()
            ==> whole_part(a) == isize::MAX,
        !a.nan() && a.negative() && units_of(a.magnitude()) >= -isize::MIN * one_in_units()
            ==> whole_part(a) == isize::MIN,
{
    let one = one_in_units();
    let u = units_of(a.magnitude());
    lemma_pow2_pos(1074);
    lemma_fundamental_div_mod(u as int, one as int);
    let w = u / one;
    let top = isize::MAX as int;
    let bottom = -(isize::MIN as int);
    assert((u >= top * one ==> w >= top) && (u >= bottom * one ==> w >= bottom))
        by (nonlinear_arith)
        requires
            u == one * w + u % one,
            u % one < one,
            one > 0,
    ;
}

} // verus!
