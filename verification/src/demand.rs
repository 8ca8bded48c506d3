//! What samples of the cycle counters tell of the load.

use crate::binary64::{
    at_most, difference, integer, lemma_units_increase, less, lesser_of, one_in_units, opposite,
    product, quotient, sum, units_of, Binary64, MAX_NANOS,
};
use crate::cpu_cycles_reader::{capacity, usage, Cycles};
use crate::cpu_info::{cycles_since, ema_alpha, mean_usage, sampled, total_usage, Info};
use crate::ordering::{
    lemma_integer_exact, lemma_integer_finite, lemma_integer_monotone, lemma_nearest_at_least,
    lemma_nearest_at_most, lemma_nearest_exact, lemma_nearest_signed_monotone, lemma_order_is_value,
    lemma_product_commutes, lemma_product_grows, lemma_product_monotone, lemma_quotient_antitone,
    lemma_quotient_at_most_one, lemma_quotient_monotone, lemma_sum_commutes, lemma_sum_monotone,
    lemma_sum_order, lemma_with_sign,
};
use crate::rounding::nearest;
use crate::timing::{in_seconds, Moment};
use vstd::arithmetic::div_mod::lemma_fundamental_div_mod_converse;
use vstd::arithmetic::power2::{
    lemma2_to64, lemma2_to64_rest, lemma_pow2_adds, lemma_pow2_pos, lemma_pow2_strictly_increases,
    pow2,
};
use vstd::prelude::*;

verus! {

/// A number from zero to `2^k`.
pub open spec fn up_to_power(a: Binary64, k: nat) -> bool {
    !a.negative() && a.magnitude() <= (1023 + k) * 0x10_0000_0000_0000
}

pub proof fn lemma_power_units(k: nat)
    requires
        k <= 1000,
    ensures
        units_of((1023 + k) * 0x10_0000_0000_0000) == pow2(1074 + k),
        (1023 + k) * 0x10_0000_0000_0000 < 0x7FF0_0000_0000_0000,
{
    let h: nat = 0x10_0000_0000_0000;
    lemma2_to64();
    lemma2_to64_rest();
    lemma_fundamental_div_mod_converse(((1023 + k) * h) as int, h as int, (1023 + k) as int, 0);
    lemma_pow2_adds(52, 1022 + k);
}

/// The product of numbers up to two powers of two is up to the product of the powers.
proof fn lemma_product_up_to_power(a: Binary64, b: Binary64, i: nat, j: nat)
    requires
        up_to_power(a, i),
        up_to_power(b, j),
        i + j <= 1000,
    ensures
        up_to_power(product(a, b), i + j),
{
    let one = one_in_units();
    let u = units_of(a.magnitude());
    let v = units_of(b.magnitude());
    let h: nat = 0x10_0000_0000_0000;
    lemma_power_units(i);
    lemma_power_units(j);
    lemma_power_units(i + j);
    lemma_units_increase(a.magnitude(), (1023 + i) * h);
    lemma_units_increase(b.magnitude(), (1023 + j) * h);
    lemma_pow2_pos(1074);
    lemma_pow2_adds(1074 + i, 1074 + j);
    lemma_pow2_adds(1074 + i + j, 1074);
    assert(1074 + i + (1074 + j) == 1074 + i + j + 1074);
    assert(u * v <= pow2(1074 + i) * pow2(1074 + j)) by (nonlinear_arith)
        requires
            u <= pow2(1074 + i),
            v <= pow2(1074 + j),
    ;
    lemma_nearest_at_most(u * v, one, (1023 + (i + j)) * h);
    lemma_with_sign(false, nearest(u * v, one));
}

proof fn lemma_integer_up_to_power(n: nat)
    requires
        n <= 0x1_0000_0000_0000_0000,
    ensures
        up_to_power(integer(n as int), 64),
{
    let one = one_in_units();
    lemma_integer_finite(n as int);
    lemma_power_units(64);
    lemma_pow2_adds(64, 1074);
    lemma2_to64();
    lemma2_to64_rest();
    assert(0 <= n * one <= units_of((1023 + 64) * 0x10_0000_0000_0000)) by (nonlinear_arith)
        requires
            n <= 0x1_0000_0000_0000_0000,
            units_of((1023 + 64) * 0x10_0000_0000_0000) == 0x1_0000_0000_0000_0000 * one,
    ;
    lemma_nearest_at_most(n * one, 1, (1023 + 64) * 0x10_0000_0000_0000);
}

/// A span of time in seconds is a finite number from zero up.
pub proof fn lemma_seconds_bounded(span: nat)
    requires
        span <= MAX_NANOS,
    ensures
        up_to_power(in_seconds(span), 66),
{
    let h: nat = 0x10_0000_0000_0000;
    let whole = integer((span / 1_000_000_000) as int);
    let nanos = integer((span % 1_000_000_000) as int);
    let billion = integer(1_000_000_000);
    let fraction = quotient(nanos, billion);
    lemma_integer_up_to_power(span / 1_000_000_000);
    lemma_integer_exact(1_000_000_000);
    lemma_integer_exact((span % 1_000_000_000) as nat);
    lemma_integer_exact(1);
    lemma_integer_monotone((span % 1_000_000_000) as int, 1_000_000_000);
    lemma_pow2_pos(1074);
    lemma_order_is_value(billion, billion);
    lemma_quotient_at_most_one(nanos, billion);
    lemma_power_units(64);
    lemma_power_units(66);
    lemma_units_increase(whole.magnitude(), (1023 + 64) * h);
    lemma_units_increase(fraction.magnitude(), integer(1).magnitude());
    lemma_pow2_adds(64, 1074);
    lemma_pow2_adds(66, 1074);
    lemma2_to64();
    lemma2_to64_rest();
    lemma_pow2_adds(2, 64);
    let total = whole.units() + fraction.units();
    let one = one_in_units();
    assert(pow2(1074 + 64) + one <= pow2(1074 + 66)) by (nonlinear_arith)
        requires
            pow2(1074 + 64) == pow2(64) * one,
            pow2(1074 + 66) == 4 * pow2(64) * one,
            pow2(64) >= 1,
    ;
    lemma_units_increase(0, whole.magnitude());
    lemma_units_increase(0, fraction.magnitude());
    lemma_nearest_at_most(total as nat, 1, (1023 + 66) * h);
    lemma_with_sign(false, nearest(total as nat, 1));
}

/// A span of time at a frequency has room for a finite number of cycles, from zero up.
pub proof fn lemma_capacity_bounded(span: nat, khz: u64)
    requires
        span <= MAX_NANOS,
    ensures
        capacity(span, khz).finite(),
        !capacity(span, khz).negative(),
{
    lemma_seconds_bounded(span);
    lemma_integer_up_to_power(khz as nat);
    lemma_integer_up_to_power(1000);
    lemma_product_up_to_power(integer(khz as int), integer(1000), 64, 64);
    lemma_product_up_to_power(
        in_seconds(span),
        product(integer(khz as int), integer(1000)),
        66,
        128,
    );
    lemma_power_units(194);
}

/// A span of time at a frequency from 1 kHz up has room for cycles, unless the span is empty.
pub proof fn lemma_capacity_positive(span: nat, khz: u64)
    requires
        span <= MAX_NANOS,
        khz >= 1,
    ensures
        span == 0 ==> capacity(span, khz).order() == 0,
        span > 0 ==> less(integer(0), capacity(span, khz)),
        !capacity(span, khz).nan(),
{
    let time = in_seconds(span);
    let whole = integer((span / 1_000_000_000) as int);
    let nanos = integer((span % 1_000_000_000) as int);
    let billion = integer(1_000_000_000);
    let fraction = quotient(nanos, billion);
    let kilo = integer(1000);
    let hertz = product(integer(khz as int), kilo);
    let one = one_in_units();
    lemma_integer_exact(0);
    lemma_integer_exact(1);
    lemma_integer_exact(1000);
    lemma_integer_exact(1_000_000_000);
    lemma_integer_exact((span % 1_000_000_000) as nat);
    lemma_pow2_pos(1074);
    lemma_order_is_value(integer(0), integer(0));
    lemma_order_is_value(billion, billion);
    lemma_integer_finite((span / 1_000_000_000) as int);
    lemma_integer_finite(khz as int);
    lemma_integer_monotone(1, khz as int);
    lemma_integer_monotone(1, 1000);
    lemma_integer_monotone((span % 1_000_000_000) as int, 1_000_000_000);
    lemma_integer_up_to_power(khz as nat);
    lemma_integer_up_to_power(1000);
    lemma_product_up_to_power(integer(khz as int), kilo, 64, 64);
    lemma_power_units(128);
    lemma_power_units(66);
    lemma_seconds_bounded(span);
    lemma_product_grows(integer(khz as int), kilo);
    lemma_product_grows(time, hertz);
    lemma_quotient_at_most_one(nanos, billion);
    lemma_sum_order(whole, fraction);
    lemma_order_is_value(whole, whole);
    lemma_order_is_value(fraction, fraction);
    if span == 0 {
        lemma_quotient_monotone(nanos, nanos, billion);
        lemma_order_is_value(nanos, nanos);
        assert(whole.units() == 0);
        assert(fraction.units() == 0);
        assert(time.order() == 0);
        lemma_product_monotone(time, time, hertz);
    } else {
        if span >= 1_000_000_000 {
            lemma_integer_monotone(1, (span / 1_000_000_000) as int);
            lemma_order_is_value(integer(1), whole);
        } else {
            let p = span % 1_000_000_000;
            lemma_order_is_value(nanos, nanos);
            lemma2_to64();
            lemma2_to64_rest();
            lemma_pow2_strictly_increases(53, 1074);
            assert((p * one) * one >= units_of(1) * (1_000_000_000 * one)) by (nonlinear_arith)
                requires
                    p >= 1,
                    one >= 1_000_000_000,
                    units_of(1) == 1,
            ;
            assert(p * one > 0) by (nonlinear_arith)
                requires
                    p >= 1,
                    one > 0,
            ;
            lemma_nearest_at_least((p * one) * one, 1_000_000_000 * one, 1);
            assert(fraction.order() > 0);
        }
        assert(whole.units() + fraction.units() >= 1);
        lemma2_to64();
        lemma_nearest_exact(1);
        lemma_nearest_signed_monotone(1, whole.units() + fraction.units(), 1);
        assert(time.order() > 0);
    }
}

/// The usage of a core is a number from zero up.
pub proof fn lemma_usage_not_negative(cycles: u64, span: nat, khz: u64)
    requires
        span <= MAX_NANOS,
    ensures
        at_most(integer(0), usage(cycles, span, khz)),
{
    let full = capacity(span, khz);
    let ran = integer(cycles as int);
    lemma_integer_exact(0);
    lemma_integer_monotone(0, 0);
    lemma_integer_monotone(0, cycles as int);
    lemma_integer_finite(cycles as int);
    lemma_capacity_bounded(span, khz);
    lemma_order_is_value(integer(0), integer(0));
    if !at_most(full, integer(0)) {
        lemma_quotient_monotone(ran, ran, full);
    }
}

/// The higher the frequency that the cycles of a core are held against, the lower its usage.
/// So the usage at the frequency that a core runs at grows when that frequency is lowered,
/// while the usage at its highest frequency does not.
pub proof fn lemma_usage_falls_with_frequency(cycles: u64, span: nat, khz: u64, higher: u64)
    requires
        span <= MAX_NANOS,
        1 <= khz <= higher,
    ensures
        at_most(usage(cycles, span, higher), usage(cycles, span, khz)),
{
    let time = in_seconds(span);
    let a = product(integer(khz as int), integer(1000));
    let b = product(integer(higher as int), integer(1000));
    lemma_integer_exact(0);
    lemma_integer_exact(1000);
    lemma_integer_finite(cycles as int);
    lemma_integer_finite(khz as int);
    lemma_integer_finite(higher as int);
    lemma_integer_monotone(khz as int, higher as int);
    lemma_integer_up_to_power(khz as nat);
    lemma_integer_up_to_power(higher as nat);
    lemma_integer_up_to_power(1000);
    lemma_product_up_to_power(integer(khz as int), integer(1000), 64, 64);
    lemma_product_up_to_power(integer(higher as int), integer(1000), 64, 64);
    lemma_power_units(128);
    lemma_power_units(66);
    lemma_product_monotone(integer(khz as int), integer(higher as int), integer(1000));
    lemma_seconds_bounded(span);
    lemma_product_monotone(a, b, time);
    lemma_product_commutes(a, time);
    lemma_product_commutes(b, time);
    lemma_capacity_bounded(span, khz);
    lemma_capacity_bounded(span, higher);
    lemma_order_is_value(integer(0), integer(0));
    lemma_capacity_positive(span, khz);
    lemma_capacity_positive(span, higher);
    lemma_integer_monotone(0, 0);
    if span > 0 {
        lemma_quotient_antitone(
            integer(cycles as int),
            capacity(span, khz),
            capacity(span, higher),
        );
    }
}

/// Adding numbers from zero up keeps their order.
pub proof fn lemma_sums_ordered(a: Binary64, b: Binary64, c: Binary64, d: Binary64)
    requires
        at_most(integer(0), a),
        at_most(a, b),
        at_most(integer(0), c),
        at_most(c, d),
    ensures
        at_most(integer(0), sum(a, c)),
        at_most(sum(a, c), sum(b, d)),
{
    lemma_integer_exact(0);
    lemma_order_is_value(integer(0), integer(0));
    lemma_order_is_value(integer(0), a);
    lemma_order_is_value(integer(0), c);
    if a.finite() && c.finite() {
        lemma_sum_order(a, c);
        lemma_nearest_signed_monotone(0, a.units() + c.units(), 1);
        lemma_nearest_signed_monotone(a.units() + c.units(), a.units() + c.units(), 1);
        lemma_sum_monotone(a, b, c);
        lemma_sum_commutes(b, c);
        if b.finite() {
            lemma_sum_monotone(c, d, b);
            lemma_sum_commutes(d, b);
        }
    }
}

/// The usage of each core adds up to a number from zero up, which is no greater where no core's
/// usage is.
proof fn lemma_total_usage_ordered(
    last: Seq<Option<Cycles>>,
    cpus: Seq<usize>,
    cycles: Map<i32, Cycles>,
    references: Seq<Cycles>,
    higher: Seq<Cycles>,
    span: nat,
    n: nat,
)
    requires
        span <= MAX_NANOS,
        n <= last.len(),
        n <= references.len(),
        n <= higher.len(),
        forall|i: int|
            0 <= i < n ==> 1 <= (#[trigger] references[i]).0 <= higher[i].0,
    ensures
        at_most(integer(0), total_usage(last, cpus, cycles, higher, span, n)),
        at_most(
            total_usage(last, cpus, cycles, higher, span, n),
            total_usage(last, cpus, cycles, references, span, n),
        ),
    decreases n,
{
    lemma_integer_monotone(0, 0);
    if n > 0 {
        let m = (n - 1) as nat;
        lemma_total_usage_ordered(last, cpus, cycles, references, higher, span, m);
        if let Some(then) = last[n - 1] {
            let ran = cycles_since(then, cycles[cpus[n - 1] as i32]);
            assert(1 <= references[n - 1].0 <= higher[n - 1].0);
            lemma_usage_not_negative(ran, span, higher[n - 1].0);
            lemma_usage_falls_with_frequency(
                ran,
                span,
                references[n - 1].0,
                higher[n - 1].0,
            );
            lemma_sums_ordered(
                total_usage(last, cpus, cycles, higher, span, m),
                total_usage(last, cpus, cycles, references, span, m),
                usage(ran, span, higher[n - 1].0),
                usage(ran, span, references[n - 1].0),
            );
        }
    }
}

proof fn lemma_total_usage_not_negative(
    last: Seq<Option<Cycles>>,
    cpus: Seq<usize>,
    cycles: Map<i32, Cycles>,
    references: Seq<Cycles>,
    span: nat,
    n: nat,
)
    requires
        span <= MAX_NANOS,
    ensures
        at_most(integer(0), total_usage(last, cpus, cycles, references, span, n)),
    decreases n,
{
    lemma_integer_monotone(0, 0);
    if n > 0 {
        let m = (n - 1) as nat;
        lemma_total_usage_not_negative(last, cpus, cycles, references, span, m);
        if let Some(then) = last[n - 1] {
            let ran = cycles_since(then, cycles[cpus[n - 1] as i32]);
            let before = total_usage(last, cpus, cycles, references, span, m);
            let added = usage(ran, span, references[n - 1].0);
            lemma_usage_not_negative(ran, span, references[n - 1].0);
            lemma_sums_ordered(before, before, added, added);
        }
    }
}

/// Dividing numbers from zero up by a whole number keeps their order.
proof fn lemma_shares_ordered(a: Binary64, b: Binary64, n: nat)
    requires
        at_most(integer(0), a),
        at_most(a, b),
        0 < n <= usize::MAX,
    ensures
        at_most(integer(0), quotient(a, integer(n as int))),
        at_most(quotient(a, integer(n as int)), quotient(b, integer(n as int))),
{
    let d = integer(n as int);
    lemma_integer_exact(0);
    lemma_integer_exact(1);
    lemma_pow2_pos(1074);
    lemma_integer_finite(n as int);
    lemma_integer_monotone(1, n as int);
    lemma_order_is_value(integer(1), integer(1));
    lemma_order_is_value(integer(0), integer(0));
    if b.finite() {
        lemma_quotient_monotone(a, b, d);
    } else {
        if a.finite() {
            lemma_quotient_monotone(a, a, d);
        }
        lemma_with_sign(b.negative() != d.negative(), 0x7FF0_0000_0000_0000);
    }
}

/// No more cores were sampled before than there are.
proof fn lemma_sampled_at_most(last: Seq<Option<Cycles>>, n: nat)
    ensures
        sampled(last, n) <= n,
    decreases n,
{
    if n > 0 {
        lemma_sampled_at_most(last, (n - 1) as nat);
    }
}

/// The average usage of the cores is a number from zero up.
pub proof fn lemma_mean_usage_not_negative(
    last: Seq<Option<Cycles>>,
    cpus: Seq<usize>,
    cycles: Map<i32, Cycles>,
    references: Seq<Cycles>,
    span: nat,
)
    requires
        span <= MAX_NANOS,
        cpus.len() <= usize::MAX,
    ensures
        at_most(integer(0), mean_usage(last, cpus, cycles, references, span)),
{
    let total = total_usage(last, cpus, cycles, references, span, cpus.len());
    lemma_integer_monotone(0, 0);
    lemma_total_usage_not_negative(last, cpus, cycles, references, span, cpus.len());
    lemma_sampled_at_most(last, cpus.len());
    if sampled(last, cpus.len()) > 0 {
        lemma_shares_ordered(total, total, sampled(last, cpus.len()));
    }
}

/// The higher the frequencies that the cycles are held against, the lower the average usage.
/// In particular the load demand rate, which is held against the highest frequency, is no more
/// than the usage at the frequencies that the cores run at.
pub proof fn lemma_mean_usage_falls_with_frequency(
    last: Seq<Option<Cycles>>,
    cpus: Seq<usize>,
    cycles: Map<i32, Cycles>,
    references: Seq<Cycles>,
    higher: Seq<Cycles>,
    span: nat,
)
    requires
        span <= MAX_NANOS,
        cpus.len() <= usize::MAX,
        cpus.len() == last.len() == references.len() == higher.len(),
        forall|i: int|
            0 <= i < cpus.len() ==> 1 <= (#[trigger] references[i]).0 <= higher[i].0,
    ensures
        at_most(
            mean_usage(last, cpus, cycles, higher, span),
            mean_usage(last, cpus, cycles, references, span),
        ),
{
    let n = cpus.len();
    lemma_integer_monotone(0, 0);
    lemma_total_usage_ordered(last, cpus, cycles, references, higher, span, n);
    lemma_sampled_at_most(last, n);
    if sampled(last, n) > 0 {
        lemma_shares_ordered(
            total_usage(last, cpus, cycles, higher, span, n),
            total_usage(last, cpus, cycles, references, span, n),
            sampled(last, n),
        );
    }
}

/// The load demand rate tells of the load alone: it is the same whatever frequency the policy
/// is set to.
pub proof fn lemma_demand_tells_of_load(a: Info, b: Info, now: Moment, cycles: Map<i32, Cycles>)
    requires
        b == (Info {
            cur_fas_freq: b.cur_fas_freq,
            verify_freq: b.verify_freq,
            verify_timer: b.verify_timer,
            ..a
        }),
    ensures
        a.usage_against(a.highest_references(), now, cycles) == b.usage_against(
            b.highest_references(),
            now,
            cycles,
        ),
{
    assert(a.highest_references() == b.highest_references());
}

/// The first sample shows no usage: there is nothing yet to measure it against.
pub proof fn lemma_first_sample_is_zero(
    last: Seq<Option<Cycles>>,
    cpus: Seq<usize>,
    cycles: Map<i32, Cycles>,
    references: Seq<Cycles>,
    span: nat,
)
    requires
        cpus.len() == last.len(),
        forall|i: int| 0 <= i < last.len() ==> #[trigger] last[i] is None,
    ensures
        mean_usage(last, cpus, cycles, references, span) == integer(0),
{
    lemma_none_sampled(last, last.len());
}

proof fn lemma_none_sampled(last: Seq<Option<Cycles>>, n: nat)
    requires
        n <= last.len(),
        forall|i: int| 0 <= i < last.len() ==> #[trigger] last[i] is None,
    ensures
        sampled(last, n) == 0,
    decreases n,
{
    if n > 0 {
        lemma_none_sampled(last, (n - 1) as nat);
        assert(last[n - 1] is None);
    }
}

/// A usage from zero up, held to at most one, is from zero to one.
pub proof fn lemma_held_to_one(a: Binary64)
    requires
        at_most(integer(0), a),
    ensures
        at_most(integer(0), lesser_of(a, integer(1))),
        at_most(lesser_of(a, integer(1)), integer(1)),
{
    lemma_integer_monotone(0, 1);
    lemma_integer_monotone(1, 1);
}

/// The moving average of the demand is a number from zero up, and a higher demand never makes
/// for a lower average.
pub proof fn lemma_smoothed_ordered(info: Info, lower: Binary64, higher: Binary64, now: Moment)
    requires
        at_most(integer(0), info.demand_smoothed),
        info.demand_smoothed.finite(),
        at_most(integer(0), lower),
        at_most(lower, higher),
        higher.finite(),
    ensures
        at_most(integer(0), info.smoothed(lower, now)),
        at_most(info.smoothed(lower, now), info.smoothed(higher, now)),
{
    let alpha = ema_alpha();
    let rest = difference(integer(1), alpha);
    let average = info.demand_smoothed;
    let one = integer(1);
    lemma_integer_exact(0);
    lemma_integer_exact(1);
    lemma_integer_exact(4);
    lemma_pow2_pos(1074);
    lemma_integer_monotone(1, 4);
    lemma_integer_monotone(0, 1);
    lemma_order_is_value(integer(4), integer(4));
    lemma_quotient_at_most_one(one, integer(4));
    lemma_with_sign(!alpha.negative(), alpha.magnitude());
    lemma_order_is_value(alpha, one);
    lemma_order_is_value(integer(0), alpha);
    lemma_sum_order(one, opposite(alpha));
    lemma_nearest_signed_monotone(0, one.units() - alpha.units(), 1);
    lemma_nearest_signed_monotone(one.units() - alpha.units(), one.units(), 1);
    lemma_nearest_exact(one.magnitude());
    assert(at_most(rest, one) && rest.order() >= 0);
    assert(rest.finite());
    lemma_order_is_value(integer(0), integer(0));
    lemma_product_monotone(lower, higher, alpha);
    lemma_product_commutes(lower, alpha);
    lemma_product_commutes(higher, alpha);
    assert(!rest.negative());
    lemma_product_monotone(average, average, rest);
    lemma_product_commutes(average, rest);
    let kept = product(rest, average);
    lemma_sums_ordered(product(alpha, lower), product(alpha, higher), kept, kept);
}

} // verus!
