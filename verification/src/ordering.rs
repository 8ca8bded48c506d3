//! Order and exactness of binary64 arithmetic.

use crate::binary64::{
    at_most, difference, integer, lemma_units_increase, less, nearest_signed, one_in_units,
    opposite, product, quotient, sum, units_of, whole_part, with_sign, Binary64,
};
use crate::rounding::{
    lemma_binade, lemma_nearest_monotone, lemma_nearest_zero, nearest, INFINITY_BITS,
};
use vstd::arithmetic::div_mod::{lemma_div_is_ordered, lemma_fundamental_div_mod_converse};
use vstd::arithmetic::power2::{
    lemma2_to64, lemma2_to64_rest, lemma_pow2_adds, lemma_pow2_pos, lemma_pow2_unfold, pow2,
};
use vstd::prelude::*;

verus! {

/// A number is made up of its sign and its magnitude.
pub proof fn lemma_with_sign(negative: bool, magnitude: nat)
    requires
        magnitude < 0x8000_0000_0000_0000,
    ensures
        with_sign(negative, magnitude).negative() == negative,
        with_sign(negative, magnitude).magnitude() == magnitude,
{
}

/// The order of numbers is the order of their values.
pub proof fn lemma_order_is_value(a: Binary64, b: Binary64)
    ensures
        a.order() < b.order() <==> a.units() < b.units(),
        a.order() == b.order() <==> a.units() == b.units(),
        a.order() < 0 <==> a.units() < 0,
        a.order() == 0 <==> a.units() == 0,
{
    let m = a.magnitude();
    let n = b.magnitude();
    lemma_units_increase(m, n);
    lemma_units_increase(n, m);
    lemma_units_increase(0, m);
    lemma_units_increase(0, n);
    lemma2_to64();
    assert(units_of(0) == 0);
}

/// Rounding keeps the order of signed values.
pub proof fn lemma_nearest_signed_monotone(n1: int, n2: int, den: nat)
    requires
        n1 <= n2,
        den > 0,
    ensures
        nearest_signed(n1, den).order() <= nearest_signed(n2, den).order(),
        !nearest_signed(n1, den).nan(),
        n1 >= 0 ==> nearest_signed(n1, den).order() >= 0,
        n1 <= 0 ==> nearest_signed(n1, den).order() <= 0,
{
    let a: nat = (if n1 < 0 {
        -n1
    } else {
        n1
    }) as nat;
    let b: nat = (if n2 < 0 {
        -n2
    } else {
        n2
    }) as nat;
    if n1 >= 0 {
        assert(a * den <= b * den) by (nonlinear_arith)
            requires
                a <= b,
        ;
        lemma_nearest_monotone(a, den, b, den);
    } else if n2 < 0 {
        assert(b * den <= a * den) by (nonlinear_arith)
            requires
                b <= a,
        ;
        lemma_nearest_monotone(b, den, a, den);
    }
    if n1 == 0 {
        assert(0nat * den <= 0nat * den);
        lemma_nearest_zero(den);
    }
}

/// Every magnitude up to infinity is the rounding of its own value.
pub proof fn lemma_nearest_exact(magnitude: nat)
    requires
        magnitude <= INFINITY_BITS,
    ensures
        nearest(units_of(magnitude), 1) == magnitude,
{
    let h: nat = 0x10_0000_0000_0000;
    let e = magnitude / h;
    let f = magnitude % h;
    let u = units_of(magnitude);
    lemma2_to64();
    let k: nat = if e == 0 {
        0
    } else {
        (e - 1) as nat
    };
    let p = pow2(k);
    let c: nat = if e == 0 {
        f
    } else {
        h + f
    };
    lemma_pow2_pos(k);
    assert(1 * p == p);
    assert(u == c * p) by (nonlinear_arith)
        requires
            e == 0 ==> u == f && c == f && p == 1,
            e != 0 ==> u == (h + f) * p && c == h + f,
    ;
    assert(u < 0x20_0000_0000_0000 * p && (e != 0 ==> u >= 0x10_0000_0000_0000 * p))
        by (nonlinear_arith)
        requires
            u == c * p,
            c < 0x20_0000_0000_0000,
            e != 0 ==> c >= 0x10_0000_0000_0000,
            p > 0,
    ;
    lemma_binade(u, 1, k);
    lemma_fundamental_div_mod_converse(u as int, p as int, c as int, 0);
}

/// By how many places a whole number has to be shifted up to set the leading bit.
proof fn lemma_leading_shift(n: nat) -> (c: nat)
    requires
        0 < n < 0x20_0000_0000_0000,
    ensures
        0x10_0000_0000_0000 <= n * pow2(c) < 0x20_0000_0000_0000,
        c <= 52,
    decreases 0x20_0000_0000_0000 - n,
{
    lemma2_to64();
    lemma2_to64_rest();
    if n >= 0x10_0000_0000_0000 {
        assert(n * pow2(0) == n) by (nonlinear_arith)
            requires
                pow2(0) == 1,
        ;
        0
    } else {
        let d = lemma_leading_shift(2 * n);
        lemma_pow2_unfold(d + 1);
        assert(n * pow2(d + 1) == (2 * n) * pow2(d)) by (nonlinear_arith)
            requires
                pow2(d + 1) == 2 * pow2(d),
        ;
        if d + 1 > 52 {
            lemma_pow2_unfold(53);
            assert((2 * n) * pow2(d) >= 2 * pow2(d)) by (nonlinear_arith)
                requires
                    n >= 1,
            ;
            assert(false);
        }
        d + 1
    }
}

/// Whole numbers below 2^53 are binary64 numbers, and rounding leaves them as they are.
pub proof fn lemma_integer_exact(n: nat)
    requires
        n < 0x20_0000_0000_0000,
    ensures
        integer(n as int).units() == n * one_in_units(),
        integer(n as int).finite(),
        !integer(n as int).negative(),
{
    let one = one_in_units();
    let h: nat = 0x10_0000_0000_0000;
    lemma_pow2_pos(1074);
    lemma2_to64();
    if n == 0 {
        assert(n * one == 0) by (nonlinear_arith)
            requires
                n == 0,
        ;
        lemma_nearest_zero(1);
    } else {
        let c = lemma_leading_shift(n);
        let a = (1074 - c) as nat;
        let f = (n * pow2(c) - h) as nat;
        let magnitude = (a + 1) * h + f;
        lemma_fundamental_div_mod_converse(
            magnitude as int,
            h as int,
            (a + 1) as int,
            f as int,
        );
        lemma_pow2_adds(c, a);
        assert((n * pow2(c)) * pow2(a) == n * one) by (nonlinear_arith)
            requires
                one == pow2(c) * pow2(a),
        ;
        lemma_nearest_exact(magnitude);
        assert(n * one >= 0) by (nonlinear_arith);
    }
}

/// Whole numbers keep their order when they are rounded.
pub proof fn lemma_integer_monotone(a: int, b: int)
    requires
        a <= b,
    ensures
        at_most(integer(a), integer(b)),
        a >= 0 ==> integer(a).order() >= 0,
        a <= 0 ==> integer(a).order() <= 0,
{
    let one = one_in_units();
    lemma_pow2_pos(1074);
    assert(a * one <= b * one) by (nonlinear_arith)
        requires
            a <= b,
            one > 0,
    ;
    assert((a >= 0 ==> a * one >= 0) && (a <= 0 ==> a * one <= 0)) by (nonlinear_arith)
        requires
            one > 0,
    ;
    lemma_nearest_signed_monotone(a * one, b * one, 1);
    lemma_nearest_signed_monotone(b * one, b * one, 1);
}

/// The order of a finite sum is that of its rounded value, zeros included.
pub proof fn lemma_sum_order(a: Binary64, b: Binary64)
    requires
        a.finite(),
        b.finite(),
    ensures
        sum(a, b).order() == nearest_signed(a.units() + b.units(), 1).order(),
        !sum(a, b).nan(),
{
    lemma_nearest_zero(1);
    lemma_nearest_signed_monotone(a.units() + b.units(), a.units() + b.units(), 1);
}

/// Terms may be swapped.
pub proof fn lemma_sum_commutes(a: Binary64, b: Binary64)
    ensures
        sum(a, b) == sum(b, a),
{
}

/// A finite term keeps the order of what it is added to.
pub proof fn lemma_sum_monotone(a: Binary64, b: Binary64, c: Binary64)
    requires
        at_most(a, b),
        c.finite(),
    ensures
        at_most(sum(a, c), sum(b, c)),
{
    lemma_order_is_value(a, b);
    if a.finite() {
        lemma_sum_order(a, c);
    }
    if b.finite() {
        lemma_sum_order(b, c);
    }
    if a.finite() && b.finite() {
        lemma_nearest_signed_monotone(a.units() + c.units(), b.units() + c.units(), 1);
    }
}

/// The greater of two numbers taken from a finite one leaves the lesser difference.
pub proof fn lemma_difference_antitone(c: Binary64, a: Binary64, b: Binary64)
    requires
        at_most(a, b),
        c.finite(),
    ensures
        at_most(difference(c, b), difference(c, a)),
{
    lemma_with_sign(!a.negative(), a.magnitude());
    lemma_with_sign(!b.negative(), b.magnitude());
    let m = opposite(b);
    let n = opposite(a);
    lemma_order_is_value(m, n);
    if m.finite() {
        lemma_sum_order(c, m);
    }
    if n.finite() {
        lemma_sum_order(c, n);
    }
    if m.finite() && n.finite() {
        lemma_nearest_signed_monotone(c.units() + m.units(), c.units() + n.units(), 1);
    }
}

/// The whole parts of numbers are ordered as the numbers.
pub proof fn lemma_whole_part_monotone(a: Binary64, b: Binary64)
    requires
        at_most(a, b),
    ensures
        whole_part(a) <= whole_part(b),
        a.order() >= 0 ==> whole_part(a) >= 0,
        b.order() <= 0 ==> whole_part(b) <= 0,
{
    let one = one_in_units();
    lemma_pow2_pos(1074);
    let u = units_of(a.magnitude());
    let v = units_of(b.magnitude());
    lemma_units_increase(a.magnitude(), b.magnitude());
    lemma_units_increase(b.magnitude(), a.magnitude());
    lemma_units_increase(0, a.magnitude());
    lemma_units_increase(0, b.magnitude());
    if u <= v {
        lemma_div_is_ordered(u as int, v as int, one as int);
    }
    if v <= u {
        lemma_div_is_ordered(v as int, u as int, one as int);
    }
    lemma2_to64();
    assert(0nat / one == 0) by (nonlinear_arith)
        requires
            one > 0,
    ;
}

/// The negated number has the negated whole part, unless that is out of range.
pub proof fn lemma_whole_part_opposite(a: Binary64)
    requires
        a.order() >= 0,
        whole_part(a) < isize::MAX,
    ensures
        whole_part(opposite(a)) == -whole_part(a),
{
    lemma_with_sign(!a.negative(), a.magnitude());
    lemma2_to64();
    let one = one_in_units();
    lemma_pow2_pos(1074);
    assert(0nat / one == 0) by (nonlinear_arith)
        requires
            one > 0,
    ;
}

/// Factors of one sign keep the order of what they multiply.
pub proof fn lemma_product_monotone(a: Binary64, b: Binary64, c: Binary64)
    requires
        at_most(a, b),
        c.finite(),
        !c.negative(),
        a.finite(),
        b.finite(),
    ensures
        at_most(product(a, c), product(b, c)),
        a.order() >= 0 ==> product(a, c).order() >= 0,
        b.order() <= 0 ==> product(b, c).order() <= 0,
{
    let one = one_in_units();
    lemma_pow2_pos(1074);
    lemma_order_is_value(a, b);
    let u = units_of(a.magnitude());
    let v = units_of(b.magnitude());
    let w = units_of(c.magnitude());
    lemma_with_sign(a.negative() != c.negative(), nearest(u * w, one));
    lemma_with_sign(b.negative() != c.negative(), nearest(v * w, one));
    lemma_units_increase(0, a.magnitude());
    lemma_units_increase(0, b.magnitude());
    lemma2_to64();
    if u <= v {
        assert((u * w) * one <= (v * w) * one) by (nonlinear_arith)
            requires
                u <= v,
        ;
        lemma_nearest_monotone(u * w, one, v * w, one);
    }
    if v <= u {
        assert((v * w) * one <= (u * w) * one) by (nonlinear_arith)
            requires
                v <= u,
        ;
        lemma_nearest_monotone(v * w, one, u * w, one);
    }
    if u == 0 {
        assert(u * w == 0) by (nonlinear_arith)
            requires
                u == 0,
        ;
        lemma_nearest_zero(one);
    }
    if v == 0 {
        assert(v * w == 0) by (nonlinear_arith)
            requires
                v == 0,
        ;
        lemma_nearest_zero(one);
    }
}

/// Division by one positive number keeps the order.
pub proof fn lemma_quotient_monotone(a: Binary64, b: Binary64, c: Binary64)
    requires
        at_most(a, b),
        c.finite(),
        c.order() > 0,
        a.finite(),
        b.finite(),
    ensures
        at_most(quotient(a, c), quotient(b, c)),
        a.order() >= 0 ==> quotient(a, c).order() >= 0,
        b.order() <= 0 ==> quotient(b, c).order() <= 0,
{
    let one = one_in_units();
    lemma_pow2_pos(1074);
    lemma_order_is_value(a, b);
    let u = units_of(a.magnitude());
    let v = units_of(b.magnitude());
    let w = units_of(c.magnitude());
    lemma_units_increase(0, a.magnitude());
    lemma_units_increase(0, b.magnitude());
    lemma_units_increase(0, c.magnitude());
    lemma2_to64();
    assert(w > 0);
    lemma_with_sign(a.negative() != c.negative(), nearest(u * one, w));
    lemma_with_sign(b.negative() != c.negative(), nearest(v * one, w));
    if u <= v {
        assert((u * one) * w <= (v * one) * w) by (nonlinear_arith)
            requires
                u <= v,
        ;
        lemma_nearest_monotone(u * one, w, v * one, w);
    }
    if v <= u {
        assert((v * one) * w <= (u * one) * w) by (nonlinear_arith)
            requires
                v <= u,
        ;
        lemma_nearest_monotone(v * one, w, u * one, w);
    }
    if u == 0 {
        lemma_nearest_zero(w);
        assert(u * one == 0) by (nonlinear_arith)
            requires
                u == 0,
        ;
    }
    if v == 0 {
        lemma_nearest_zero(w);
        assert(v * one == 0) by (nonlinear_arith)
            requires
                v == 0,
        ;
    }
}

/// A value no greater than that of a number rounds to one no greater.
pub proof fn lemma_nearest_at_most(num: nat, den: nat, magnitude: nat)
    requires
        den > 0,
        magnitude <= INFINITY_BITS,
        num <= units_of(magnitude) * den,
    ensures
        nearest(num, den) <= magnitude,
{
    assert(num * 1 <= units_of(magnitude) * den);
    lemma_nearest_monotone(num, den, units_of(magnitude), 1);
    lemma_nearest_exact(magnitude);
}

/// A value no less than that of a number rounds to one no less.
pub proof fn lemma_nearest_at_least(num: nat, den: nat, magnitude: nat)
    requires
        den > 0,
        magnitude <= INFINITY_BITS,
        num >= units_of(magnitude) * den,
    ensures
        nearest(num, den) >= magnitude,
{
    lemma_nearest_monotone(units_of(magnitude), 1, num, den);
    lemma_nearest_exact(magnitude);
}

/// Whole numbers up to 2^64 round to finite numbers.
pub proof fn lemma_integer_finite(n: int)
    requires
        -0x1_0000_0000_0000_0000 <= n <= 0x1_0000_0000_0000_0000,
    ensures
        integer(n).finite(),
        !integer(n).nan(),
        n >= 0 ==> !integer(n).negative(),
{
    let h: nat = 0x10_0000_0000_0000;
    let magnitude = 1087 * h;
    let m: nat = (if n < 0 {
        -n
    } else {
        n
    }) as nat;
    let one = one_in_units();
    lemma_pow2_pos(1074);
    lemma2_to64();
    lemma2_to64_rest();
    lemma_fundamental_div_mod_converse(magnitude as int, h as int, 1087, 0);
    lemma_pow2_adds(12, 1074);
    assert(m * one <= h * (pow2(12) * one)) by (nonlinear_arith)
        requires
            m <= 0x1_0000_0000_0000_0000,
            h == 0x10_0000_0000_0000,
            pow2(12) == 0x1000,
    ;
    lemma_nearest_at_most(m * one, 1, magnitude);
    assert((n < 0 ==> n * one < 0 && -(n * one) == m * one) && (n >= 0 ==> n * one == m * one && n
        * one >= 0)) by (nonlinear_arith)
        requires
            one > 0,
            n < 0 ==> m == -n,
            n >= 0 ==> m == n,
    ;
    lemma_with_sign(n < 0, nearest(m * one, 1));
}

/// Factors may be swapped.
pub proof fn lemma_product_commutes(a: Binary64, b: Binary64)
    ensures
        product(a, b) == product(b, a),
{
    let u = units_of(a.magnitude());
    let v = units_of(b.magnitude());
    assert(u * v == v * u) by (nonlinear_arith);
}

/// Multiplying by one changes nothing.
pub proof fn lemma_product_one(a: Binary64)
    requires
        a.finite(),
    ensures
        product(a, integer(1)) == a,
{
    let one = one_in_units();
    let u = units_of(a.magnitude());
    lemma_pow2_pos(1074);
    lemma_integer_exact(1);
    assert(units_of(integer(1).magnitude()) == one);
    lemma_nearest_at_most(u * one, one, a.magnitude());
    lemma_nearest_at_least(u * one, one, a.magnitude());
}

/// A factor from zero to one never makes a number from zero up greater.
pub proof fn lemma_product_shrinks(a: Binary64, b: Binary64)
    requires
        a.finite(),
        !a.negative(),
        !b.negative(),
        at_most(b, integer(1)),
    ensures
        at_most(product(a, b), a),
        !product(a, b).negative(),
        product(a, b).finite(),
{
    let one = one_in_units();
    let u = units_of(a.magnitude());
    let v = units_of(b.magnitude());
    lemma_pow2_pos(1074);
    lemma_integer_exact(1);
    lemma_units_increase(b.magnitude(), integer(1).magnitude());
    assert(v <= one);
    assert(u * v <= u * one) by (nonlinear_arith)
        requires
            v <= one,
    ;
    lemma_nearest_at_most(u * v, one, a.magnitude());
    lemma_with_sign(false, nearest(u * v, one));
}

/// A factor from one up never makes a number from zero up less.
pub proof fn lemma_product_grows(a: Binary64, b: Binary64)
    requires
        a.finite(),
        !a.negative(),
        b.finite(),
        at_most(integer(1), b),
    ensures
        at_most(a, product(a, b)),
{
    let one = one_in_units();
    let u = units_of(a.magnitude());
    let v = units_of(b.magnitude());
    lemma_pow2_pos(1074);
    lemma_integer_exact(1);
    lemma_order_is_value(integer(1), integer(1));
    lemma_units_increase(integer(1).magnitude(), b.magnitude());
    assert(v >= one);
    assert(u * v >= u * one) by (nonlinear_arith)
        requires
            v >= one,
    ;
    lemma_nearest_at_least(u * v, one, a.magnitude());
    lemma_with_sign(false, nearest(u * v, one));
}

/// A number from zero up over a greater one is from zero to one.
pub proof fn lemma_quotient_at_most_one(a: Binary64, b: Binary64)
    requires
        at_most(a, b),
        !a.negative(),
        b.finite(),
        b.order() > 0,
    ensures
        at_most(quotient(a, b), integer(1)),
        !quotient(a, b).negative(),
        quotient(a, b).finite(),
{
    let one = one_in_units();
    let u = units_of(a.magnitude());
    let v = units_of(b.magnitude());
    lemma_pow2_pos(1074);
    lemma_integer_exact(1);
    lemma2_to64();
    lemma_units_increase(0, b.magnitude());
    lemma_units_increase(a.magnitude(), b.magnitude());
    let m = integer(1).magnitude();
    assert(units_of(m) == one);
    assert(u * one <= one * v) by (nonlinear_arith)
        requires
            u <= v,
    ;
    lemma_nearest_at_most(u * one, v, m);
    lemma_with_sign(false, nearest(u * one, v));
}

/// A number that is no less than a positive one, over that one, is at least one.
pub proof fn lemma_quotient_at_least_one(a: Binary64, b: Binary64)
    requires
        at_most(b, a),
        a.finite(),
        b.order() > 0,
    ensures
        at_most(integer(1), quotient(a, b)),
{
    let one = one_in_units();
    let u = units_of(a.magnitude());
    let v = units_of(b.magnitude());
    lemma_pow2_pos(1074);
    lemma_integer_exact(1);
    lemma2_to64();
    lemma_units_increase(0, b.magnitude());
    lemma_units_increase(b.magnitude(), a.magnitude());
    let m = integer(1).magnitude();
    assert(units_of(m) == one);
    assert(u * one >= one * v) by (nonlinear_arith)
        requires
            u >= v,
    ;
    lemma_nearest_at_least(u * one, v, m);
    lemma_with_sign(false, nearest(u * one, v));
}

/// The greater of two positive divisors leaves the lesser quotient.
pub proof fn lemma_quotient_antitone(a: Binary64, b: Binary64, c: Binary64)
    requires
        a.finite(),
        !a.negative(),
        at_most(b, c),
        b.order() > 0,
        c.finite(),
    ensures
        at_most(quotient(a, c), quotient(a, b)),
        !quotient(a, c).negative(),
{
    let one = one_in_units();
    let u = units_of(a.magnitude());
    let v = units_of(b.magnitude());
    let w = units_of(c.magnitude());
    lemma_pow2_pos(1074);
    lemma2_to64();
    lemma_units_increase(0, b.magnitude());
    lemma_units_increase(b.magnitude(), c.magnitude());
    assert((u * one) * v <= (u * one) * w) by (nonlinear_arith)
        requires
            v <= w,
    ;
    lemma_nearest_monotone(u * one, w, u * one, v);
    lemma_with_sign(false, nearest(u * one, v));
    lemma_with_sign(false, nearest(u * one, w));
}

} // verus!
