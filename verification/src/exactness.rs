//! The real numbers that binary64 numbers stand for, and how far rounding may be off.

use crate::binary64::{
    difference, integer, nanos_of_seconds, nearest_signed, one_in_units, opposite, product,
    quotient, sum, units_of, whole_part, Binary64, MAX_NANOS,
};
use crate::demand::{lemma_power_units, lemma_seconds_bounded};
use crate::ordering::{
    lemma_integer_exact, lemma_nearest_at_most, lemma_order_is_value, lemma_quotient_monotone,
    lemma_with_sign,
};
use crate::rounding::{binade, half_even, lemma_binade_bounds, lemma_half_even_at_least, nearest};
use crate::smoothing::lemma_nearest_units;
use crate::timing::in_seconds;
use vstd::arithmetic::div_mod::lemma_fundamental_div_mod;
use vstd::arithmetic::power2::{
    lemma2_to64, lemma2_to64_rest, lemma_pow2_adds, lemma_pow2_pos, lemma_pow2_strictly_increases,
    pow2,
};
use vstd::prelude::*;

verus! {

/// The real number that a finite number stands for.
pub open spec fn value(x: Binary64) -> real {
    (x.units() as real) / (one_in_units() as real)
}

/// The most by which rounding to the nearest number may be off, as a share of the number.
pub open spec fn rounding() -> real {
    1 as real / 0x20_0000_0000_0000 as real
}

/// The least number above zero.
pub open spec fn tiny() -> real {
    1 as real / one_in_units() as real
}

pub open spec fn magnitude_of(v: real) -> real {
    if v < 0 as real {
        -v
    } else {
        v
    }
}

/// `a` and `b` are no more than `d` apart.
pub open spec fn within(a: real, b: real, d: real) -> bool {
    a - b <= d && b - a <= d
}

/// Rounding is off by no more than half of a step of its binade.
proof fn lemma_nearest_error(num: nat, den: nat)
    requires
        den > 0,
        nearest(num, den) < 0x7FF0_0000_0000_0000,
    ensures
        ({
            let u = units_of(nearest(num, den));
            let gap = if u * den >= num {
                u * den - num
            } else {
                num - u * den
            };
            &&& 0x20_0000_0000_0000 * gap <= num || 2 * gap <= den
            &&& den == 1 ==> 0x20_0000_0000_0000 * gap <= num
        }),
{
    let k = binade(num, den);
    let p = pow2(k);
    let d = den * p;
    let h = half_even(num, d);
    lemma_pow2_pos(k);
    lemma_binade_bounds(num, den);
    assert(d > 0) by (nonlinear_arith)
        requires
            den > 0,
            p > 0,
            d == den * p,
    ;
    lemma_fundamental_div_mod(num as int, d as int);
    if k > 0 {
        lemma_half_even_at_least(num, d, 0x10_0000_0000_0000);
    }
    lemma_nearest_units(num, den, k);
    let u = units_of(nearest(num, den));
    let floor = num / d;
    let rest = num % d;
    assert(u * den == h * d) by (nonlinear_arith)
        requires
            u == h * p,
            d == den * p,
    ;
    assert(floor * d == d * floor) by (nonlinear_arith);
    assert((floor + 1) * d == d * floor + d) by (nonlinear_arith);
    if k == 0 {
        lemma2_to64();
        assert(d == den) by (nonlinear_arith)
            requires
                d == den * p,
                p == 1,
        ;
    }
}

/// A number that no operation on it overflows: 2^1000.
pub open spec fn vast() -> real {
    pow2(1000) as real
}

/// What rounding makes of a ratio of units, as real numbers.
proof fn lemma_nearest_value(num: nat, den: nat)
    requires
        den > 0,
        (num as real) / (den as real) <= vast() * (one_in_units() as real),
    ensures
        nearest(num, den) < 0x7FF0_0000_0000_0000,
        ({
            let exact = (num as real) / (den as real) / (one_in_units() as real);
            let got = (units_of(nearest(num, den)) as real) / (one_in_units() as real);
            &&& within(got, exact, rounding() * exact + tiny())
            &&& den == 1 ==> within(got, exact, rounding() * exact)
        }),
{
    let one = one_in_units();
    let o = one as real;
    let n = num as real;
    let d = den as real;
    let big = pow2(1000);
    let b = big as real;
    lemma_pow2_pos(1074);
    lemma_pow2_adds(1000, 1074);
    lemma_power_units(1000);
    let top: nat = (1023 + 1000) * 0x10_0000_0000_0000;
    assert(n <= b * o * d) by (nonlinear_arith)
        requires
            n / d <= b * o,
            d > 0 as real,
    ;
    assert(((big * one) * den) as real == b * o * d) by (nonlinear_arith)
        requires
            b == big as real,
            o == one as real,
            d == den as real,
    ;
    assert(num <= (big * one) * den);
    lemma_nearest_at_most(num, den, top);
    lemma_nearest_error(num, den);
    let m = units_of(nearest(num, den));
    let u = m as real;
    assert((m * den) as real == u * d) by (nonlinear_arith)
        requires
            u == m as real,
            d == den as real,
    ;
    let x = u * d - n;
    let h = 0x20_0000_0000_0000 as real;
    if 0x20_0000_0000_0000 * (if m * den >= num {
        m * den - num
    } else {
        num - m * den
    }) <= num {
        assert(within(u / o, n / d / o, (1 as real / h) * (n / d / o))) by {
            assert(x * h <= n && -x * h <= n);
            assert(u / o - n / d / o <= (1 as real / h) * (n / d / o) && n / d / o - u / o <= (
            1 as real / h) * (n / d / o)) by (nonlinear_arith)
                requires
                    x == u * d - n,
                    x * h <= n,
                    -x * h <= n,
                    d > 0 as real,
                    o > 0 as real,
                    h > 0 as real,
            ;
        }
        assert(1 as real / o >= 0 as real) by (nonlinear_arith)
            requires
                o > 0 as real,
        ;
    } else {
        assert(within(u / o, n / d / o, (1 as real / h) * (n / d / o) + 1 as real / o)) by {
            assert(x + x <= d && -x - x <= d);
            assert(u / o - n / d / o <= (1 as real / h) * (n / d / o) + 1 as real / o && n / d / o
                - u / o <= (1 as real / h) * (n / d / o) + 1 as real / o) by (nonlinear_arith)
                requires
                    x == u * d - n,
                    x + x <= d,
                    -x - x <= d,
                    d > 0 as real,
                    o > 0 as real,
                    h > 0 as real,
                    n >= 0 as real,
            ;
        }
    }
}

/// The order of finite numbers is that of the real numbers they stand for.
pub proof fn lemma_value_order(a: Binary64, b: Binary64)
    ensures
        a.order() <= b.order() <==> value(a) <= value(b),
        a.order() < b.order() <==> value(a) < value(b),
        a.order() >= 0 <==> value(a) >= 0 as real,
        a.order() > 0 <==> value(a) > 0 as real,
        a.order() == 0 <==> value(a) == 0 as real,
{
    let o = one_in_units() as real;
    let x = a.units() as real;
    let y = b.units() as real;
    lemma_pow2_pos(1074);
    lemma_order_is_value(a, b);
    lemma_order_is_value(b, a);
    assert((x <= y <==> x / o <= y / o) && (x < y <==> x / o < y / o) && (x >= 0 as real <==> x / o
        >= 0 as real) && (x > 0 as real <==> x / o > 0 as real) && (x == 0 as real <==> x / o
        == 0 as real)) by (nonlinear_arith)
        requires
            o > 0 as real,
    ;
}

/// What `nearest_signed` makes of a whole number of units.
proof fn lemma_nearest_signed_value(n: int)
    requires
        magnitude_of(n as real / one_in_units() as real) <= vast(),
    ensures
        nearest_signed(n, 1).finite(),
        within(
            value(nearest_signed(n, 1)),
            n as real / one_in_units() as real,
            rounding() * magnitude_of(n as real / one_in_units() as real),
        ),
{
    let o = one_in_units() as real;
    let m: nat = (if n < 0 {
        -n
    } else {
        n
    }) as nat;
    let v = vast();
    lemma_pow2_pos(1074);
    assert((m as real) / (1 as real) <= v * o) by (nonlinear_arith)
        requires
            (n as real) / o <= v,
            -((n as real) / o) <= v,
            m as real == n as real || m as real == -(n as real),
            o > 0 as real,
    ;
    assert((m as real) / (1nat as real) == m as real);
    lemma_nearest_value(m, 1);
    lemma_with_sign(n < 0, nearest(m, 1));
    let u = units_of(nearest(m, 1)) as real;
    assert((-u) / o == -(u / o) && (-(m as real)) / o == -((m as real) / o)) by (nonlinear_arith)
        requires
            o > 0 as real,
    ;
    assert(m as real / o >= 0 as real) by (nonlinear_arith)
        requires
            o > 0 as real,
            m as real >= 0 as real,
    ;
}

/// A whole number rounds to a number that is off by no more than rounding is, and not at all
/// below 2^53.
pub proof fn lemma_integer_value(n: int)
    requires
        -0x1_0000_0000_0000_0000_0000_0000_0000_0000int <= n
            <= 0x1_0000_0000_0000_0000_0000_0000_0000_0000int,
    ensures
        integer(n).finite(),
        within(value(integer(n)), n as real, rounding() * magnitude_of(n as real)),
        -0x20_0000_0000_0000 < n < 0x20_0000_0000_0000 ==> value(integer(n)) == n as real,
{
    let one = one_in_units();
    let o = one as real;
    lemma_pow2_pos(1074);
    lemma2_to64();
    lemma2_to64_rest();
    lemma_pow2_adds(64, 64);
    lemma_pow2_strictly_increases(128, 1000);
    assert(0x1_0000_0000_0000_0000 * 0x1_0000_0000_0000_0000
        == 0x1_0000_0000_0000_0000_0000_0000_0000_0000int) by (nonlinear_arith);
    assert((n * one) as real / o == n as real) by (nonlinear_arith)
        requires
            o == one as real,
            o > 0 as real,
    ;
    lemma_nearest_signed_value(n * one);
    if -0x20_0000_0000_0000 < n < 0x20_0000_0000_0000 {
        let m: nat = (if n < 0 {
            -n
        } else {
            n
        }) as nat;
        lemma_integer_exact(m);
        assert(n < 0 ==> -(n * one) == m * one) by (nonlinear_arith)
            requires
                n < 0 ==> m == -n,
        ;
        assert(n >= 0 ==> n * one == m * one && m * one >= 0) by (nonlinear_arith)
            requires
                n >= 0 ==> m == n,
        ;
        assert(n < 0 ==> n * one < 0) by (nonlinear_arith)
            requires
                one > 0,
        ;
        lemma_with_sign(n < 0, nearest(m * one, 1));
        lemma_with_sign(false, nearest(m * one, 1));
        assert(integer(n).units() == n * one);
    }
}

/// A sum is off by no more than rounding is.
pub proof fn lemma_sum_value(a: Binary64, b: Binary64)
    requires
        a.finite(),
        b.finite(),
        magnitude_of(value(a) + value(b)) <= vast(),
    ensures
        sum(a, b).finite(),
        within(
            value(sum(a, b)),
            value(a) + value(b),
            rounding() * magnitude_of(value(a) + value(b)),
        ),
{
    let o = one_in_units() as real;
    let n = a.units() + b.units();
    lemma_pow2_pos(1074);
    assert(n as real / o == value(a) + value(b)) by (nonlinear_arith)
        requires
            n as real == a.units() as real + b.units() as real,
            value(a) == a.units() as real / o,
            value(b) == b.units() as real / o,
            o > 0 as real,
    ;
    if n == 0 {
        lemma2_to64();
        lemma_with_sign(a.negative() && b.negative(), 0);
        lemma_value_order(sum(a, b), sum(a, b));
        assert(n as real / o == 0 as real) by (nonlinear_arith)
            requires
                n as real == 0 as real,
                o > 0 as real,
        ;
        let r = rounding();
        assert(r * (0 as real) == 0 as real) by (nonlinear_arith);
    } else {
        lemma_nearest_signed_value(n);
    }
}

/// A difference is off by no more than rounding is.
pub proof fn lemma_difference_value(a: Binary64, b: Binary64)
    requires
        a.finite(),
        b.finite(),
        magnitude_of(value(a) - value(b)) <= vast(),
    ensures
        difference(a, b).finite(),
        within(
            value(difference(a, b)),
            value(a) - value(b),
            rounding() * magnitude_of(value(a) - value(b)),
        ),
{
    lemma_opposite_value(b);
    lemma_sum_value(a, opposite(b));
}

pub proof fn lemma_opposite_value(a: Binary64)
    ensures
        value(opposite(a)) == -value(a),
        opposite(a).finite() == a.finite(),
        opposite(a).nan() == a.nan(),
{
    let o = one_in_units() as real;
    let x = a.units() as real;
    lemma_pow2_pos(1074);
    lemma_with_sign(!a.negative(), a.magnitude());
    assert((-x) / o == -(x / o)) by (nonlinear_arith)
        requires
            o > 0 as real,
    ;
}

/// The magnitude and the sign of the real number behind a number.
proof fn lemma_value_parts(a: Binary64)
    ensures
        magnitude_of(value(a)) == units_of(a.magnitude()) as real / one_in_units() as real,
        value(a) == (if a.negative() {
            -magnitude_of(value(a))
        } else {
            magnitude_of(value(a))
        }),
{
    let o = one_in_units() as real;
    let u = units_of(a.magnitude()) as real;
    lemma_pow2_pos(1074);
    assert((-u) / o == -(u / o) && u / o >= 0 as real) by (nonlinear_arith)
        requires
            o > 0 as real,
            u >= 0 as real,
    ;
}

/// A product is off by no more than rounding is, and one unit where it is next to nothing.
pub proof fn lemma_product_value(a: Binary64, b: Binary64)
    requires
        a.finite(),
        b.finite(),
        magnitude_of(value(a) * value(b)) <= vast(),
    ensures
        product(a, b).finite(),
        within(
            value(product(a, b)),
            value(a) * value(b),
            rounding() * magnitude_of(value(a) * value(b)) + tiny(),
        ),
{
    let one = one_in_units();
    let o = one as real;
    let u = units_of(a.magnitude());
    let v = units_of(b.magnitude());
    let x = u as real;
    let y = v as real;
    let va = magnitude_of(value(a));
    let vb = magnitude_of(value(b));
    lemma_pow2_pos(1074);
    lemma_value_parts(a);
    lemma_value_parts(b);
    assert((u * v) as real == x * y) by (nonlinear_arith)
        requires
            x == u as real,
            y == v as real,
    ;
    assert((x * y) / o / o == va * vb && (x * y) / o == va * vb * o) by (nonlinear_arith)
        requires
            va == x / o,
            vb == y / o,
            o > 0 as real,
    ;
    lemma_sign_rule(value(a), value(b), a.negative(), b.negative(), va, vb);
    let lim = vast();
    assert(va * vb * o <= lim * o) by (nonlinear_arith)
        requires
            va * vb <= lim,
            o > 0 as real,
    ;
    lemma_nearest_value(u * v, one);
    let negative = a.negative() != b.negative();
    lemma_with_sign(negative, nearest(u * v, one));
    lemma_value_parts(product(a, b));
}

/// A product of real numbers with these signs.
proof fn lemma_sign_rule(a: real, b: real, na: bool, nb: bool, va: real, vb: real)
    requires
        a == (if na {
            -va
        } else {
            va
        }),
        b == (if nb {
            -vb
        } else {
            vb
        }),
        va >= 0 as real,
        vb >= 0 as real,
    ensures
        magnitude_of(a * b) == va * vb,
        a * b == (if na != nb {
            -(va * vb)
        } else {
            va * vb
        }),
{
    assert((-va) * vb == -(va * vb) && va * (-vb) == -(va * vb) && (-va) * (-vb) == va * vb && va
        * vb >= 0 as real) by (nonlinear_arith)
        requires
            va >= 0 as real,
            vb >= 0 as real,
    ;
}

/// A quotient is off by no more than rounding is, and one unit where it is next to nothing.
pub proof fn lemma_quotient_value(a: Binary64, b: Binary64)
    requires
        a.finite(),
        b.finite(),
        !b.negative(),
        value(b) > 0 as real,
        magnitude_of(value(a) / value(b)) <= vast(),
    ensures
        quotient(a, b).finite(),
        within(
            value(quotient(a, b)),
            value(a) / value(b),
            rounding() * magnitude_of(value(a) / value(b)) + tiny(),
        ),
{
    let one = one_in_units();
    let o = one as real;
    let u = units_of(a.magnitude());
    let v = units_of(b.magnitude());
    let x = u as real;
    let y = v as real;
    let va = magnitude_of(value(a));
    let vb = value(b);
    lemma_pow2_pos(1074);
    lemma_value_parts(a);
    lemma_value_parts(b);
    lemma_value_order(b, b);
    assert(b.magnitude() != 0);
    assert((u * one) as real == x * o) by (nonlinear_arith)
        requires
            x == u as real,
            o == one as real,
    ;
    assert(y > 0 as real) by (nonlinear_arith)
        requires
            vb == y / o,
            vb > 0 as real,
            o > 0 as real,
    ;
    assert((x * o) / y / o == va / vb && (x * o) / y == (va / vb) * o) by (nonlinear_arith)
        requires
            va == x / o,
            vb == y / o,
            vb > 0 as real,
            y > 0 as real,
            o > 0 as real,
    ;
    assert((-va) / vb == -(va / vb) && va / vb >= 0 as real) by (nonlinear_arith)
        requires
            va >= 0 as real,
            vb > 0 as real,
    ;
    let lim = vast();
    let r = va / vb;
    assert(r * o <= lim * o) by (nonlinear_arith)
        requires
            r <= lim,
            o > 0 as real,
    ;
    lemma_nearest_value(u * one, v);
    lemma_with_sign(a.negative(), nearest(u * one, v));
    lemma_value_parts(quotient(a, b));
}

/// The whole part of a number is less than one off it, and no further from zero.
pub proof fn lemma_whole_part_value(a: Binary64)
    requires
        a.finite(),
        magnitude_of(value(a)) <= isize::MAX as real,
    ensures
        value(a) >= 0 as real ==> 0 <= whole_part(a) && whole_part(a) as real <= value(a)
            && value(a) < whole_part(a) as real + 1 as real,
        value(a) <= 0 as real ==> whole_part(a) <= 0 && value(a) <= whole_part(a) as real
            && whole_part(a) as real - 1 as real <= value(a),
{
    let one = one_in_units();
    let o = one as real;
    let u = units_of(a.magnitude());
    let w = u / one;
    let r = u % one;
    lemma_pow2_pos(1074);
    lemma_value_parts(a);
    lemma_fundamental_div_mod(u as int, one as int);
    let x = u as real;
    let k = w as real;
    assert(((one * w) as real) == o * k) by (nonlinear_arith)
        requires
            o == one as real,
            k == w as real,
    ;
    let q = r as real;
    assert(x == o * k + q);
    assert(x / o < k + 1 as real && k <= x / o) by (nonlinear_arith)
        requires
            x == o * k + q,
            0 as real <= q,
            q < o,
            o > 0 as real,
    ;
}

/// The nanoseconds of a number of seconds, to the nearest.
pub proof fn lemma_nanos_value(a: Binary64)
    requires
        value(a) >= 0 as real,
    ensures
        within(
            nanos_of_seconds(a) as real,
            value(a) * 1_000_000_000 as real,
            1 as real / 2 as real,
        ),
{
    let one = one_in_units();
    let o = one as real;
    let u = units_of(a.magnitude());
    let n = nanos_of_seconds(a);
    lemma_pow2_pos(1074);
    lemma_value_parts(a);
    let num = u * 1_000_000_000;
    lemma_fundamental_div_mod(num as int, one as int);
    let w = num / one;
    let x = num as real;
    let k = n as real;
    assert(2 * (num - one * n) <= one && 2 * (one * n - num) <= one) by {
        assert(one * (w + 1) == one * w + one) by (nonlinear_arith);
    }
    assert(((one * n) as real) == o * k) by (nonlinear_arith)
        requires
            o == one as real,
            k == n as real,
    ;
    assert((x - o * k) + (x - o * k) <= o && (o * k - x) + (o * k - x) <= o);
    let y = u as real;
    assert(x == y * 1_000_000_000 as real);
    let v = y / o;
    assert(k - v * 1_000_000_000 as real <= 1 as real / 2 as real && v * 1_000_000_000 as real - k
        <= 1 as real / 2 as real) by (nonlinear_arith)
        requires
            v == y / o,
            x == y * 1_000_000_000 as real,
            (x - o * k) + (x - o * k) <= o,
            (o * k - x) + (o * k - x) <= o,
            o > 0 as real,
    ;
}

/// `x` is as far off `v`, which is not negative, as `a` roundings may bring it.
pub open spec fn close(x: real, v: real, a: int) -> bool {
    v >= 0 as real && within(x, v, (a as real) * rounding() * v)
}

/// The least number is far below what rounding is off by.
pub proof fn lemma_tiny()
    ensures
        tiny() > 0 as real,
        tiny() <= rounding() * rounding(),
        rounding() > 0 as real,
        rounding() <= 1 as real / 1_000_000_000_000_000 as real,
{
    let one = one_in_units();
    let o = one as real;
    let h = 0x20_0000_0000_0000 as real;
    lemma_pow2_pos(1074);
    lemma2_to64();
    lemma2_to64_rest();
    lemma_pow2_adds(53, 53);
    lemma_pow2_strictly_increases(106, 1074);
    assert((0x20_0000_0000_0000int * 0x20_0000_0000_0000int) as real == h * h);
    assert(pow2(106) == 0x20_0000_0000_0000 * 0x20_0000_0000_0000);
    assert(o >= h * h);
    assert(1 as real / o <= (1 as real / h) * (1 as real / h) && 1 as real / o > 0 as real)
        by (nonlinear_arith)
        requires
            o >= h * h,
            h > 0 as real,
    ;
}

/// One more rounding.
pub proof fn lemma_close_rounded(z: real, p: real, v: real, a: int)
    requires
        close(p, v, a),
        0 <= a <= 1000,
        within(z, p, rounding() * magnitude_of(p) + tiny()),
        v >= rounding(),
    ensures
        close(z, v, a + 3),
        p >= 0 as real,
{
    let r = rounding();
    let t = tiny();
    let e = (a as real) * r;
    lemma_tiny();
    assert(e <= 1 as real / 1_000_000 as real && e >= 0 as real) by (nonlinear_arith)
        requires
            e == (a as real) * r,
            0 as real <= a as real <= 1000 as real,
            r > 0 as real,
            r <= 1 as real / 1_000_000_000_000_000 as real,
    ;
    assert(p >= 0 as real && p <= v + v / 2 as real) by (nonlinear_arith)
        requires
            v >= 0 as real,
            p - v <= e * v,
            v - p <= e * v,
            0 as real <= e,
            e <= 1 as real / 1_000_000 as real,
    ;
    assert(t <= r * v) by (nonlinear_arith)
        requires
            t <= r * r,
            r <= v,
            r > 0 as real,
    ;
    assert(r * p <= r * (v + v / 2 as real)) by (nonlinear_arith)
        requires
            p <= v + v / 2 as real,
            r > 0 as real,
    ;
    assert(((a + 3) as real) * r * v == e * v + 3 as real * (r * v)) by (nonlinear_arith)
        requires
            e == (a as real) * r,
            (a + 3) as real == a as real + 3 as real,
    ;
    assert(r * (v + v / 2 as real) == r * v + (r * v) / 2 as real) by (nonlinear_arith);
}

/// A product of close numbers.
pub proof fn lemma_close_product(x: real, v: real, a: int, y: real, w: real, b: int)
    requires
        close(x, v, a),
        close(y, w, b),
        0 <= a <= 1000,
        0 <= b <= 1000,
    ensures
        close(x * y, v * w, a + b + 1),
{
    let r = rounding();
    let e = (a as real) * r;
    let f = (b as real) * r;
    lemma_tiny();
    assert(e * f <= r && e >= 0 as real && f >= 0 as real) by (nonlinear_arith)
        requires
            e == (a as real) * r,
            f == (b as real) * r,
            0 as real <= a as real <= 1000 as real,
            0 as real <= b as real <= 1000 as real,
            r > 0 as real,
            r <= 1 as real / 1_000_000_000_000_000 as real,
    ;
    let d = x - v;
    let g = y - w;
    assert(x * y - v * w == d * w + v * g + d * g) by (nonlinear_arith)
        requires
            d == x - v,
            g == y - w,
    ;
    assert(d * w <= e * v * w && -(d * w) <= e * v * w) by (nonlinear_arith)
        requires
            d <= e * v,
            -d <= e * v,
            w >= 0 as real,
    ;
    assert(v * g <= f * (v * w) && -(v * g) <= f * (v * w)) by (nonlinear_arith)
        requires
            g <= f * w,
            -g <= f * w,
            v >= 0 as real,
    ;
    assert(d * g <= e * f * (v * w) && -(d * g) <= e * f * (v * w)) by (nonlinear_arith)
        requires
            d <= e * v,
            -d <= e * v,
            g <= f * w,
            -g <= f * w,
            v >= 0 as real,
            w >= 0 as real,
            e >= 0 as real,
            f >= 0 as real,
    ;
    let m = v * w;
    assert(m >= 0 as real) by (nonlinear_arith)
        requires
            m == v * w,
            v >= 0 as real,
            w >= 0 as real,
    ;
    assert(e * f * m <= r * m) by (nonlinear_arith)
        requires
            e * f <= r,
            m >= 0 as real,
    ;
    assert(e * v * w == e * m) by (nonlinear_arith)
        requires
            m == v * w,
    ;
    assert(((a + b + 1) as real) * r * m == e * m + f * m + r * m) by (nonlinear_arith)
        requires
            e == (a as real) * r,
            f == (b as real) * r,
            (a + b + 1) as real == a as real + b as real + 1 as real,
    ;
}

/// A quotient of close numbers.
pub proof fn lemma_close_quotient(x: real, v: real, a: int, y: real, w: real, b: int)
    requires
        close(x, v, a),
        close(y, w, b),
        w > 0 as real,
        0 <= a <= 1000,
        0 <= b <= 1000,
    ensures
        y > 0 as real,
        close(x / y, v / w, a + b + 1),
{
    let r = rounding();
    let e = (a as real) * r;
    let f = (b as real) * r;
    lemma_tiny();
    assert(e >= 0 as real && f >= 0 as real && f <= 1 as real / 1_000_000 as real && (e + f) * f
        <= r / 4 as real) by (nonlinear_arith)
        requires
            e == (a as real) * r,
            f == (b as real) * r,
            0 as real <= a as real <= 1000 as real,
            0 as real <= b as real <= 1000 as real,
            r > 0 as real,
            r <= 1 as real / 1_000_000_000_000_000 as real,
    ;
    assert(y >= w - f * w);
    assert(y >= w / 2 as real) by (nonlinear_arith)
        requires
            y >= w - f * w,
            f <= 1 as real / 1_000_000 as real,
            w > 0 as real,
    ;
    let q = v / w;
    let z = x / y;
    assert(v == q * w && q >= 0 as real) by (nonlinear_arith)
        requires
            q == v / w,
            w > 0 as real,
            v >= 0 as real,
    ;
    assert(x == z * y) by (nonlinear_arith)
        requires
            z == x / y,
            y > 0 as real,
    ;
    // (z - q) y == (x - v) - q (y - w), so that it is at most (e + f) v.
    let d = x - v;
    let g = y - w;
    assert((z - q) * y == d - q * g) by (nonlinear_arith)
        requires
            x == z * y,
            v == q * w,
            d == x - v,
            g == y - w,
    ;
    assert(q * g <= f * (q * w) && -(q * g) <= f * (q * w)) by (nonlinear_arith)
        requires
            g <= f * w,
            -g <= f * w,
            q >= 0 as real,
    ;
    let c = (e + f + r) * q;
    // (e + f + r) (1 - f) >= e + f.
    assert((e + f + r) * (1 as real - f) >= e + f) by (nonlinear_arith)
        requires
            (e + f) * f <= r / 4 as real,
            f <= 1 as real / 1_000_000 as real,
            r > 0 as real,
            f >= 0 as real,
    ;
    assert(c * y >= (e + f) * (q * w)) by (nonlinear_arith)
        requires
            c == (e + f + r) * q,
            y >= w - f * w,
            (e + f + r) * (1 as real - f) >= e + f,
            q >= 0 as real,
            w > 0 as real,
            e + f + r >= 0 as real,
    ;
    assert((e + f) * (q * w) == e * v + f * (q * w)) by (nonlinear_arith)
        requires
            v == q * w,
    ;
    assert(z - q <= c && q - z <= c) by (nonlinear_arith)
        requires
            (z - q) * y <= c * y,
            -((z - q) * y) <= c * y,
            y > 0 as real,
    ;
    assert(((a + b + 1) as real) * r * q == c) by (nonlinear_arith)
        requires
            c == (e + f + r) * q,
            e == (a as real) * r,
            f == (b as real) * r,
            (a + b + 1) as real == a as real + b as real + 1 as real,
    ;
}

/// A sum of close numbers.
pub proof fn lemma_close_sum(x: real, v: real, y: real, w: real, a: int)
    requires
        close(x, v, a),
        close(y, w, a),
    ensures
        close(x + y, v + w, a),
{
    let f = (a as real) * rounding();
    assert(f * (v + w) == f * v + f * w) by (nonlinear_arith);
}

/// A whole number is close to what it rounds to.
pub proof fn lemma_close_integer(n: nat)
    requires
        n <= 0x1_0000_0000_0000_0000_0000_0000_0000_0000int,
    ensures
        close(value(integer(n as int)), n as real, 1),
        integer(n as int).finite(),
        !integer(n as int).negative(),
        n < 0x20_0000_0000_0000 ==> close(value(integer(n as int)), n as real, 0),
{
    let r = rounding();
    let one = one_in_units();
    lemma_integer_value(n as int);
    assert((1 as real) * r * (n as real) == r * (n as real)) by (nonlinear_arith);
    assert((0 as real) * r * (n as real) == 0 as real) by (nonlinear_arith);
    assert(n * one >= 0) by (nonlinear_arith);
    lemma_with_sign(false, nearest(n * one, 1));
}

/// A span in seconds is close to a billionth of its nanoseconds.
pub proof fn lemma_seconds_value(span: nat)
    requires
        span <= MAX_NANOS,
    ensures
        in_seconds(span).finite(),
        !in_seconds(span).negative(),
        close(value(in_seconds(span)), span as real / 1_000_000_000 as real, 6),
        span == 0 ==> value(in_seconds(span)) == 0 as real,
{
    let w = span / 1_000_000_000;
    let f = (span % 1_000_000_000) as nat;
    let whole = integer(w as int);
    let nanos = integer(f as int);
    let billion = integer(1_000_000_000);
    let fraction = quotient(nanos, billion);
    let g = 1_000_000_000 as real;
    let r = rounding();
    lemma_tiny();
    lemma_close_integer(w);
    lemma_close_integer(f);
    lemma_integer_value(f as int);
    lemma_integer_value(1_000_000_000);
    lemma_close_integer(1_000_000_000);
    lemma_seconds_bounded(span);
    lemma_power_units(66);
    let exact = (f as real) / g;
    assert(0 as real <= exact && exact <= 1 as real) by (nonlinear_arith)
        requires
            exact == (f as real) / g,
            0 as real <= f as real <= g,
            g > 0 as real,
    ;
    lemma_vast();
    lemma_quotient_value(nanos, billion);
    if f == 0 {
        assert(exact == 0 as real) by (nonlinear_arith)
            requires
                exact == (f as real) / g,
                f as real == 0 as real,
                g > 0 as real,
        ;
        lemma_integer_exact(0);
        lemma_value_order(nanos, nanos);
        lemma_integer_exact(1_000_000_000);
        lemma_quotient_monotone(nanos, nanos, billion);
        lemma_value_order(fraction, fraction);
    } else {
        assert(exact >= r) by (nonlinear_arith)
            requires
                exact == (f as real) / g,
                f as real >= 1 as real,
                g == 1_000_000_000 as real,
                r <= 1 as real / 1_000_000_000_000_000 as real,
        ;
        assert((0 as real) * r * exact == 0 as real) by (nonlinear_arith);
        lemma_close_rounded(value(fraction), exact, exact, 0);
    }
    let v = w as real + exact;
    assert((1 as real) * r * (w as real) <= (3 as real) * r * (w as real)) by (nonlinear_arith)
        requires
            r > 0 as real,
            w as real >= 0 as real,
    ;
    assert((3 as real) * r * exact >= 0 as real) by (nonlinear_arith)
        requires
            r > 0 as real,
            exact >= 0 as real,
    ;
    lemma_close_sum(value(whole), w as real, value(fraction), exact, 3);
    assert(v == span as real / g) by (nonlinear_arith)
        requires
            v == w as real + (f as real) / g,
            span as real == (w as real) * g + f as real,
            g > 0 as real,
    ;
    let p = value(whole) + value(fraction);
    assert(magnitude_of(p) <= vast()) by {
        assert((3 as real) * r * v <= v) by (nonlinear_arith)
            requires
                r <= 1 as real / 1_000_000_000_000_000 as real,
                v >= 0 as real,
        ;
    }
    lemma_sum_value(whole, fraction);
    if span > 0 {
        assert(v >= r) by (nonlinear_arith)
            requires
                v == span as real / g,
                span as real >= 1 as real,
                g == 1_000_000_000 as real,
                r <= 1 as real / 1_000_000_000_000_000 as real,
        ;
        lemma_close_rounded(value(sum(whole, fraction)), p, v, 3);
    } else {
        assert(r * (0 as real) == 0 as real) by (nonlinear_arith);
        assert((6 as real) * r * (0 as real) == 0 as real) by (nonlinear_arith);
        assert((3 as real) * r * (0 as real) == 0 as real) by (nonlinear_arith);
    }
}

/// What is called vast is greater than any number in use.
pub proof fn lemma_vast()
    ensures
        vast() >= 0x1_0000_0000_0000_0000_0000_0000_0000_0000int as real
            * 0x1_0000_0000_0000_0000_0000_0000_0000_0000int as real,
{
    lemma2_to64();
    lemma2_to64_rest();
    lemma_pow2_adds(64, 64);
    lemma_pow2_adds(128, 128);
    lemma_pow2_strictly_increases(256, 1000);
    let a: int = 0x1_0000_0000_0000_0000;
    assert(a * a == 0x1_0000_0000_0000_0000_0000_0000_0000_0000int) by (nonlinear_arith)
        requires
            a == 0x1_0000_0000_0000_0000,
    ;
    let b: int = 0x1_0000_0000_0000_0000_0000_0000_0000_0000int;
    assert((b * b) as real == (b as real) * (b as real)) by (nonlinear_arith);
}

/// One more rounding, of a number that may be next to nothing.
pub proof fn lemma_close_rounded_small(z: real, p: real, v: real, a: int)
    requires
        close(p, v, a),
        0 <= a <= 1000,
        within(z, p, rounding() * magnitude_of(p) + tiny()),
    ensures
        within(z, v, ((a + 2) as real) * rounding() * v + tiny()),
        p >= 0 as real,
{
    let r = rounding();
    let e = (a as real) * r;
    lemma_tiny();
    assert(e <= 1 as real / 1_000_000 as real && e >= 0 as real) by (nonlinear_arith)
        requires
            e == (a as real) * r,
            0 as real <= a as real <= 1000 as real,
            r > 0 as real,
            r <= 1 as real / 1_000_000_000_000_000 as real,
    ;
    assert(p >= 0 as real && p <= v + v / 2 as real) by (nonlinear_arith)
        requires
            v >= 0 as real,
            p - v <= e * v,
            v - p <= e * v,
            0 as real <= e,
            e <= 1 as real / 1_000_000 as real,
    ;
    assert(r * p <= r * (v + v / 2 as real)) by (nonlinear_arith)
        requires
            p <= v + v / 2 as real,
            r > 0 as real,
    ;
    assert(r * v >= 0 as real) by (nonlinear_arith)
        requires
            r > 0 as real,
            v >= 0 as real,
    ;
    assert(((a + 2) as real) * r * v == e * v + 2 as real * (r * v)) by (nonlinear_arith)
        requires
            e == (a as real) * r,
            (a + 2) as real == a as real + 2 as real,
    ;
    assert(r * (v + v / 2 as real) == r * v + (r * v) / 2 as real) by (nonlinear_arith);
}

} // verus!
