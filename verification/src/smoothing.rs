//! The moving average of the demand lies between what it averages, in spite of rounding.

use crate::binary64::{
    at_most, difference, greater_of, integer, lesser_of, one_in_units, product, ratio, sum,
    units_of, Binary64,
};
use crate::cpu_info::{ema_alpha, Info};
use crate::demand::lemma_sums_ordered;
use crate::ordering::{
    lemma_integer_exact, lemma_nearest_exact, lemma_order_is_value, lemma_product_commutes,
    lemma_product_monotone, lemma_sum_order, lemma_with_sign,
};
use crate::rounding::{
    half_even, lemma_binade, lemma_half_even_at_least, lemma_half_even_at_most,
    lemma_half_even_scaled, lemma_nearest_monotone, lemma_nearest_zero, nearest,
};
use crate::timing::Moment;
use vstd::arithmetic::div_mod::lemma_fundamental_div_mod_converse;
use vstd::arithmetic::power2::{
    lemma2_to64, lemma2_to64_rest, lemma_pow2_adds, lemma_pow2_pos, lemma_pow2_unfold, pow2,
};
use vstd::prelude::*;

verus! {

/// A ratio rounds to a whole number of steps of its binade.
pub proof fn lemma_nearest_units(num: nat, den: nat, k: nat)
    requires
        den > 0,
        k <= 2044 || k == 2045 && half_even(num, den * pow2(k)) < 0x20_0000_0000_0000,
        num < 0x20_0000_0000_0000 * (den * pow2(k)),
        k == 0 || num >= 0x10_0000_0000_0000 * (den * pow2(k)),
    ensures
        nearest(num, den) == 0x10_0000_0000_0000 * k + half_even(num, den * pow2(k)),
        units_of(nearest(num, den)) == half_even(num, den * pow2(k)) * pow2(k),
{
    let h: nat = 0x10_0000_0000_0000;
    let d = den * pow2(k);
    let n = half_even(num, d);
    lemma_pow2_pos(k);
    lemma2_to64();
    assert(d > 0) by (nonlinear_arith)
        requires
            den > 0,
            pow2(k) > 0,
            d == den * pow2(k),
    ;
    lemma_binade(num, den, k);
    lemma_half_even_at_most(num, d, 0x20_0000_0000_0000);
    if k > 0 {
        lemma_half_even_at_least(num, d, h);
    }
    let bits = h * k + n;
    if n < h {
        assert(k == 0);
        assert(n * pow2(0) == n) by (nonlinear_arith)
            requires
                pow2(0) == 1,
        ;
        lemma_fundamental_div_mod_converse(bits as int, h as int, 0, n as int);
    } else if n < 2 * h {
        lemma_fundamental_div_mod_converse(bits as int, h as int, (k + 1) as int, (n - h) as int);
    } else {
        lemma_fundamental_div_mod_converse(bits as int, h as int, (k + 2) as int, 0);
        lemma_pow2_unfold(k + 1);
        assert(h * pow2(k + 1) == n * pow2(k)) by (nonlinear_arith)
            requires
                n == 2 * h,
                pow2(k + 1) == 2 * pow2(k),
        ;
    }
}

/// A quarter and three quarters of a whole number, each rounded to a whole number, make up the
/// number again.
proof fn lemma_whole_quarters(c: nat)
    ensures
        half_even(c, 4) + half_even(3 * c, 4) == c,
        half_even(c, 2) + half_even(3 * c, 2) == 2 * c,
{
}

/// Where the three quarters are rounded to one place less, the sum rounds back.
proof fn lemma_coarse_quarters(c: nat)
    ensures
        ({
            let e = 4 * half_even(3 * c, 4) - 3 * c;
            &&& -2 <= e <= 2
            &&& 4 * c + e >= 0 ==> half_even((4 * c + e) as nat, 4) == c
        }),
        half_even((half_even(c, 2) + 2 * half_even(3 * c, 4)) as nat, 2) == c,
{
}

proof fn lemma_halved_quarters(c: nat)
    ensures
        ({
            let e = 2 * half_even(3 * c, 2) - 3 * c;
            &&& -1 <= e <= 1
            &&& c % 2 == 0 ==> e == 0
            &&& 4 * c + e >= 0 ==> half_even((4 * c + e) as nat, 4) == c
        }),
{
}

/// A quarter and three quarters of a number, each rounded, make up the number again once their
/// sum is rounded.
proof fn lemma_quarters(magnitude: nat)
    requires
        magnitude < 0x7FF0_0000_0000_0000,
    ensures
        ({
            let u = units_of(magnitude);
            nearest(units_of(nearest(u, 4)) + units_of(nearest(3 * u, 4)), 1) == magnitude
        }),
{
    let h: nat = 0x10_0000_0000_0000;
    let u = units_of(magnitude);
    let k: nat = if magnitude < h {
        0
    } else {
        (magnitude / h - 1) as nat
    };
    let c: nat = (magnitude - h * k) as nat;
    let p = pow2(k);
    lemma_pow2_pos(k);
    lemma2_to64();
    assert(u == c * p && c < 2 * h && (k > 0 ==> c >= h)) by {
        if magnitude < h {
            assert(c * pow2(0) == c) by (nonlinear_arith)
                requires
                    pow2(0) == 1,
            ;
        }
    }
    let a = nearest(u, 4);
    let b = nearest(3 * u, 4);
    let total = units_of(a) + units_of(b);
    lemma_whole_quarters(c);
    lemma_coarse_quarters(c);
    lemma_halved_quarters(c);
    if k == 0 {
        assert(u == c) by (nonlinear_arith)
            requires
                u == c * p,
                p == 1,
        ;
        assert(4 * pow2(0) == 4);
        lemma_nearest_units(u, 4, 0);
        lemma_nearest_units(3 * u, 4, 0);
        assert(units_of(a) == half_even(c, 4)) by (nonlinear_arith)
            requires
                units_of(a) == half_even(c, 4) * pow2(0),
                pow2(0) == 1,
        ;
        assert(units_of(b) == half_even(3 * c, 4)) by (nonlinear_arith)
            requires
                units_of(b) == half_even(3 * c, 4) * pow2(0),
                pow2(0) == 1,
        ;
        lemma_nearest_exact(magnitude);
    } else if k == 1 {
        assert(u == 2 * c) by (nonlinear_arith)
            requires
                u == c * p,
                p == 2,
        ;
        lemma_nearest_units(u, 4, 0);
        lemma_half_even_scaled(c, 2, 2);
        assert(c * 2 == u);
        assert(units_of(a) == half_even(c, 2)) by (nonlinear_arith)
            requires
                units_of(a) == half_even(c, 2) * pow2(0),
                pow2(0) == 1,
        ;
        if 3 * c < 4 * h {
            lemma_nearest_units(3 * u, 4, 0);
            lemma_half_even_scaled(3 * c, 2, 2);
            assert((3 * c) * 2 == 3 * u);
            assert(units_of(b) == half_even(3 * c, 2)) by (nonlinear_arith)
                requires
                    units_of(b) == half_even(3 * c, 2) * pow2(0),
                    pow2(0) == 1,
            ;
            lemma_nearest_exact(magnitude);
        } else {
            lemma_nearest_units(3 * u, 4, 1);
            lemma_half_even_scaled(3 * c, 4, 2);
            assert((3 * c) * 2 == 3 * u);
            assert(units_of(b) == 2 * half_even(3 * c, 4)) by (nonlinear_arith)
                requires
                    units_of(b) == half_even(3 * c, 4) * pow2(1),
                    pow2(1) == 2,
            ;
            assert(1 * pow2(1) == 2);
            lemma_nearest_units(total, 1, 1);
        }
    } else {
        let q = pow2((k - 2) as nat);
        lemma_pow2_pos((k - 2) as nat);
        lemma_pow2_unfold((k - 1) as nat);
        lemma_pow2_unfold(k);
        assert(4 * q == p && 4 * pow2((k - 1) as nat) == 2 * p && 1 * p == p);
        assert(u < 0x20_0000_0000_0000 * p && u >= 0x10_0000_0000_0000 * p) by (nonlinear_arith)
            requires
                u == c * p,
                0x10_0000_0000_0000 <= c < 0x20_0000_0000_0000,
                p > 0,
        ;
        lemma_nearest_units(u, 4, (k - 2) as nat);
        lemma_half_even_scaled(c, 1, p);
        assert(1 * p == p);
        assert(half_even(c, 1) == c);
        assert(units_of(a) == c * q);
        assert((3 * c) * p == 3 * u) by (nonlinear_arith)
            requires
                u == c * p,
        ;
        let e: int;
        if 3 * c < 4 * h {
            e = 2 * half_even(3 * c, 2) - 3 * c;
            let n = half_even(3 * c, 2);
            lemma_half_even_scaled(3 * c, 2, p);
            assert(3 * u < 0x20_0000_0000_0000 * (2 * p) && 3 * u >= 0x10_0000_0000_0000 * (2 * p))
                by (nonlinear_arith)
                requires
                    (3 * c) * p == 3 * u,
                    2 * 0x10_0000_0000_0000 <= 3 * c < 2 * 0x20_0000_0000_0000,
                    p > 0,
            ;
            lemma_nearest_units(3 * u, 4, (k - 1) as nat);
            assert(units_of(b) == n * pow2((k - 1) as nat));
            assert(total == (4 * c + e) * q) by (nonlinear_arith)
                requires
                    total == c * q + n * pow2((k - 1) as nat),
                    pow2((k - 1) as nat) == 2 * q,
                    e == 2 * n - 3 * c,
            ;
        } else {
            e = 4 * half_even(3 * c, 4) - 3 * c;
            let n = half_even(3 * c, 4);
            lemma_half_even_scaled(3 * c, 4, p);
            assert(3 * u < 0x20_0000_0000_0000 * (4 * p) && 3 * u >= 0x10_0000_0000_0000 * (4 * p))
                by (nonlinear_arith)
                requires
                    (3 * c) * p == 3 * u,
                    4 * 0x10_0000_0000_0000 <= 3 * c < 4 * 0x20_0000_0000_0000,
                    p > 0,
            ;
            lemma_nearest_units(3 * u, 4, k);
            assert(units_of(b) == n * p);
            assert(total == (4 * c + e) * q) by (nonlinear_arith)
                requires
                    total == c * q + n * p,
                    p == 4 * q,
                    e == 4 * n - 3 * c,
            ;
        }
        let w: nat = (4 * c + e) as nat;
        lemma_half_even_scaled(w, 4, q);
        assert(half_even(total, p) == c);
        assert(0x10_0000_0000_0000 * p <= total < 0x20_0000_0000_0000 * p) by (nonlinear_arith)
            requires
                total == w * q,
                p == 4 * q,
                4 * 0x10_0000_0000_0000 <= w < 4 * 0x20_0000_0000_0000,
                q > 0,
        ;
        lemma_nearest_units(total, 1, k);
    }
}

/// The weight of a new demand is exactly a quarter, that of the average before three quarters.
pub proof fn lemma_weights()
    ensures
        ({
            let alpha = ema_alpha();
            let rest = difference(integer(1), alpha);
            &&& alpha.units() == pow2(1072) && rest.units() == 3 * pow2(1072)
            &&& alpha.finite() && !alpha.negative()
            &&& rest.finite() && !rest.negative()
            &&& one_in_units() == 4 * pow2(1072)
        }),
{
    let h: nat = 0x10_0000_0000_0000;
    let one = one_in_units();
    let q = pow2(1072);
    let alpha = ema_alpha();
    let rest = difference(integer(1), alpha);
    lemma_pow2_pos(1072);
    lemma_pow2_unfold(1073);
    lemma_pow2_unfold(1074);
    lemma2_to64();
    lemma2_to64_rest();
    lemma_integer_exact(1);
    lemma_integer_exact(4);
    lemma_order_is_value(integer(4), integer(4));
    lemma_order_is_value(integer(1), integer(1));
    // One quarter has the bit pattern 1021 * 2^52.
    let m = 1021 * h;
    lemma_fundamental_div_mod_converse(m as int, h as int, 1021, 0);
    lemma_pow2_adds(52, 1020);
    assert(units_of(m) == q);
    assert((one * one) * 1 == q * (4 * one)) by (nonlinear_arith)
        requires
            one == 4 * q,
    ;
    lemma_nearest_monotone(one * one, 4 * one, q, 1);
    lemma_nearest_monotone(q, 1, one * one, 4 * one);
    lemma_nearest_exact(m);
    lemma_with_sign(false, m);
    lemma_with_sign(!alpha.negative(), alpha.magnitude());
    // Three quarters have the bit pattern 1022 * 2^52 + 2^51.
    let n = 1022 * h + 0x8_0000_0000_0000;
    lemma_fundamental_div_mod_converse(n as int, h as int, 1022, 0x8_0000_0000_0000);
    lemma_pow2_adds(51, 1021);
    lemma_pow2_unfold(1021 + 51);
    assert((h + 0x8_0000_0000_0000) * pow2(1021) == 3 * q) by (nonlinear_arith)
        requires
            q == 0x8_0000_0000_0000 * pow2(1021),
            h == 2 * 0x8_0000_0000_0000,
    ;
    lemma_nearest_exact(n);
    lemma_with_sign(false, n);
}

/// The moving average of a demand with itself is that demand.
pub proof fn lemma_average_of_equals(x: Binary64)
    requires
        at_most(integer(0), x),
        x.finite(),
    ensures
        sum(
            product(ema_alpha(), x),
            product(difference(integer(1), ema_alpha()), x),
        ).order() == x.order(),
{
    let alpha = ema_alpha();
    let rest = difference(integer(1), alpha);
    let one = one_in_units();
    let q = pow2(1072);
    let u = units_of(x.magnitude());
    let a = nearest(u, 4);
    let b = nearest(3 * u, 4);
    lemma_weights();
    lemma_integer_exact(0);
    lemma_order_is_value(integer(0), x);
    lemma_order_is_value(integer(0), integer(0));
    lemma_pow2_pos(1072);
    assert((q * u) * 4 == u * one && ((3 * q) * u) * 4 == (3 * u) * one) by (nonlinear_arith)
        requires
            one == 4 * q,
    ;
    lemma_nearest_monotone(q * u, one, u, 4);
    lemma_nearest_monotone(u, 4, q * u, one);
    lemma_nearest_monotone((3 * q) * u, one, 3 * u, 4);
    lemma_nearest_monotone(3 * u, 4, (3 * q) * u, one);
    lemma_quarters(x.magnitude());
    lemma_units_ordered(u, x.magnitude());
    let s = product(alpha, x);
    let t = product(rest, x);
    lemma_with_sign(alpha.negative() != x.negative(), a);
    lemma_with_sign(rest.negative() != x.negative(), b);
    lemma_sum_order(s, t);
    if x.negative() {
        assert(x.magnitude() == 0);
        lemma2_to64();
        assert(u == 0);
        lemma_nearest_zero(4);
        lemma_nearest_zero(1);
    } else {
        lemma_with_sign(false, x.magnitude());
    }
}

/// Neither a quarter nor three quarters of a finite number round to infinity.
proof fn lemma_units_ordered(u: nat, magnitude: nat)
    requires
        u == units_of(magnitude),
        magnitude < 0x7FF0_0000_0000_0000,
    ensures
        nearest(u, 4) <= magnitude,
        nearest(3 * u, 4) <= magnitude,
{
    lemma_nearest_monotone(u, 4, u, 1);
    lemma_nearest_monotone(3 * u, 4, u, 1);
    lemma_nearest_exact(magnitude);
}

/// The moving average lies between the new demand and the average before, exactly, in spite of
/// rounding.
pub proof fn lemma_smoothed_between(info: Info, raw: Binary64, now: Moment)
    requires
        at_most(integer(0), info.demand_smoothed),
        info.demand_smoothed.finite(),
        at_most(integer(0), raw),
        raw.finite(),
    ensures
        at_most(lesser_of(raw, info.demand_smoothed), info.smoothed(raw, now)),
        at_most(info.smoothed(raw, now), greater_of(raw, info.demand_smoothed)),
{
    let alpha = ema_alpha();
    let rest = difference(integer(1), alpha);
    let before = info.demand_smoothed;
    let low = lesser_of(raw, before);
    let high = greater_of(raw, before);
    lemma_weights();
    lemma_integer_exact(0);
    lemma_order_is_value(integer(0), integer(0));
    lemma_average_of_equals(low);
    lemma_average_of_equals(high);
    lemma_scaled(low, raw, alpha);
    lemma_scaled(raw, high, alpha);
    lemma_scaled(low, before, rest);
    lemma_scaled(before, high, rest);
    lemma_sums_ordered(
        product(alpha, low),
        product(alpha, raw),
        product(rest, low),
        product(rest, before),
    );
    lemma_sums_ordered(
        product(alpha, raw),
        product(alpha, high),
        product(rest, before),
        product(rest, high),
    );
}

proof fn lemma_scaled(a: Binary64, b: Binary64, c: Binary64)
    requires
        at_most(integer(0), a),
        at_most(a, b),
        b.finite(),
        c.finite(),
        !c.negative(),
    ensures
        at_most(integer(0), product(c, a)),
        at_most(product(c, a), product(c, b)),
{
    lemma_integer_exact(0);
    lemma_order_is_value(integer(0), integer(0));
    lemma_product_monotone(a, b, c);
    lemma_product_commutes(a, c);
    lemma_product_commutes(b, c);
}

} // verus!
