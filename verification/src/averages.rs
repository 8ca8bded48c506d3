//! What the moving averages amount to, as real numbers.

use crate::binary64::{difference, integer, one_in_units, product, sum, Binary64};
use crate::cpu_info::{ema_alpha, Info};
use crate::exactness::{
    lemma_difference_value, lemma_integer_value, lemma_product_value, lemma_sum_value, lemma_tiny,
    lemma_vast, magnitude_of, rounding, tiny, value, vast, within,
};
use crate::smoothing::lemma_weights;
use crate::timing::{elapsed, Moment};
use crate::weighting::{averages, cached, raw_usage, smoothed_usage, ClusterSample};
use vstd::arithmetic::power2::{lemma_pow2_pos, pow2};
use vstd::prelude::*;

verus! {

/// A mix of two numbers with a weight and the rest of it, rounded at each step, is the mix of
/// the real numbers up to rounding.
proof fn lemma_mix(weight: Binary64, a: Binary64, b: Binary64)
    requires
        weight.finite(),
        0 as real <= value(weight) <= 1 as real,
        a.finite(),
        b.finite(),
        0 as real <= value(a) <= vast() / 8 as real,
        0 as real <= value(b) <= vast() / 8 as real,
    ensures
        ({
            let exact = value(weight) * value(a) + (1 as real - value(weight)) * value(b);
            let got = sum(product(weight, a), product(difference(integer(1), weight), b));
            &&& got.finite()
            &&& exact >= 0 as real
            &&& within(value(got), exact, (8 as real) * rounding() * exact + (4 as real) * tiny())
        }),
{
    let r = rounding();
    let t = tiny();
    let w = value(weight);
    let x = value(a);
    let y = value(b);
    let big = vast();
    let rest = difference(integer(1), weight);
    lemma_tiny();
    lemma_vast();
    lemma_integer_value(1);
    lemma_difference_value(integer(1), weight);
    let d = value(rest);
    let c = 1 as real - w;
    assert(0 as real <= r * c && r * c <= r) by (nonlinear_arith)
        requires
            0 as real <= c <= 1 as real,
            r > 0 as real,
    ;
    assert(d >= 0 as real && d <= 2 as real) by (nonlinear_arith)
        requires
            d - c <= r * c,
            c - d <= r * c,
            0 as real <= c <= 1 as real,
            r > 0 as real,
            r <= 1 as real / 1_000_000_000_000_000 as real,
    ;
    let p = w * x;
    let q = d * y;
    let m = c * y;
    assert(0 as real <= p && p <= x && 0 as real <= q && q <= y + y && 0 as real <= m && m <= y)
        by (nonlinear_arith)
        requires
            p == w * x,
            q == d * y,
            m == c * y,
            0 as real <= w <= 1 as real,
            0 as real <= d <= 2 as real,
            0 as real <= c <= 1 as real,
            x >= 0 as real,
            y >= 0 as real,
    ;
    assert(q - m <= r * m && m - q <= r * m) by (nonlinear_arith)
        requires
            q == d * y,
            m == c * y,
            d - c <= r * c,
            c - d <= r * c,
            y >= 0 as real,
    ;
    lemma_product_value(weight, a);
    lemma_product_value(rest, b);
    let u = value(product(weight, a));
    let v = value(product(rest, b));
    assert(r * m <= m && r * q <= r * m + r * m && r * m >= 0 as real && r * p >= 0 as real && r * p
        <= p) by (nonlinear_arith)
        requires
            q - m <= r * m,
            m >= 0 as real,
            p >= 0 as real,
            r > 0 as real,
            r <= 1 as real / 1_000_000_000_000_000 as real,
    ;
    let e = p + m;
    assert(r * e == r * p + r * m) by (nonlinear_arith)
        requires
            e == p + m,
    ;
    // Before the sum is rounded.
    let z = u + v;
    assert(z - e <= 3 as real * (r * e) + 2 as real * t && e - z <= 3 as real * (r * e) + 2 as real
        * t);
    assert(3 as real * (r * e) <= e && 2 as real * t <= 1 as real && t <= 1 as real)
        by (nonlinear_arith)
        requires
            e >= 0 as real,
            t > 0 as real,
            t <= r * r,
            r > 0 as real,
            r <= 1 as real / 1_000_000_000_000_000 as real,
    ;
    assert(magnitude_of(z) <= e + e + 2 as real * t);
    assert(big >= 1000 as real);
    lemma_sum_value(product(weight, a), product(rest, b));
    let n = magnitude_of(z);
    assert(r * n <= r * (e + e + 2 as real * t)) by (nonlinear_arith)
        requires
            n <= e + e + 2 as real * t,
            r > 0 as real,
    ;
    assert(r * (e + e + 2 as real * t) == 2 as real * (r * e) + 2 as real * (r * t))
        by (nonlinear_arith);
    assert(r * t <= t) by (nonlinear_arith)
        requires
            r <= 1 as real / 1_000_000_000_000_000 as real,
            t > 0 as real,
    ;
    assert((8 as real) * r * e == 8 as real * (r * e)) by (nonlinear_arith);
    assert(r * e >= 0 as real) by (nonlinear_arith)
        requires
            r > 0 as real,
            e >= 0 as real,
    ;
}

/// The smoothed usage of a policy that was averaged before is the smoothing share of the average
/// before and the rest of the new usage, up to rounding, however high the usages are. So it lies
/// between the two.
pub proof fn lemma_smoothed_usage_value(
    last_usage: Map<i32, Binary64>,
    smoothing: Binary64,
    policy: i32,
    raw: Binary64,
)
    requires
        last_usage.contains_key(policy),
        smoothing.finite(),
        0 as real <= value(smoothing) <= 1 as real,
        last_usage[policy].finite(),
        raw.finite(),
        0 as real <= value(last_usage[policy]) <= vast() / 8 as real,
        0 as real <= value(raw) <= vast() / 8 as real,
    ensures
        ({
            let s = value(smoothing);
            let before = value(last_usage[policy]);
            let exact = s * before + (1 as real - s) * value(raw);
            let got = value(smoothed_usage(last_usage, smoothing, policy, raw));
            let off = (8 as real) * rounding() * exact + (4 as real) * tiny();
            &&& within(got, exact, off)
            &&& before <= value(raw) ==> before - off <= got && got <= value(raw) + off
            &&& value(raw) <= before ==> value(raw) - off <= got && got <= before + off
        }),
{
    let s = value(smoothing);
    let x = value(last_usage[policy]);
    let y = value(raw);
    lemma_mix(smoothing, last_usage[policy], raw);
    assert((x <= y ==> x <= s * x + (1 as real - s) * y && s * x + (1 as real - s) * y <= y) && (y
        <= x ==> y <= s * x + (1 as real - s) * y && s * x + (1 as real - s) * y <= x))
        by (nonlinear_arith)
        requires
            0 as real <= s <= 1 as real,
    ;
}

/// While samples follow each other closely, the smoothed demand is a quarter of the new demand
/// and three quarters of the one before, up to rounding; after a pause of more than a tenth of a
/// second it is the new demand.
pub proof fn lemma_smoothed_demand_value(info: Info, raw: Binary64, now: Moment)
    requires
        raw.finite(),
        info.demand_smoothed.finite(),
        0 as real <= value(raw) <= vast() / 8 as real,
        0 as real <= value(info.demand_smoothed) <= vast() / 8 as real,
    ensures
        elapsed(info.last_demand_update, now) > 100_000_000 ==> info.smoothed(raw, now)
            == raw,
        elapsed(info.last_demand_update, now) <= 100_000_000 ==> ({
            let exact = (value(raw) + 3 as real * value(info.demand_smoothed)) / 4 as real;
            within(
                value(info.smoothed(raw, now)),
                exact,
                (8 as real) * rounding() * exact + (4 as real) * tiny(),
            )
        }),
{
    let alpha = ema_alpha();
    let one = one_in_units();
    let q = pow2(1072);
    lemma_weights();
    lemma_pow2_pos(1072);
    assert((q as real) / (one as real) == 1 as real / 4 as real) by (nonlinear_arith)
        requires
            one as real == 4 as real * (q as real),
            q as real > 0 as real,
    ;
    lemma_mix(alpha, raw, info.demand_smoothed);
    let w = value(alpha);
    let x = value(raw);
    let y = value(info.demand_smoothed);
    assert(w * x + (1 as real - w) * y == (x + 3 as real * y) / 4 as real) by (nonlinear_arith)
        requires
            w == 1 as real / 4 as real,
    ;
}

/// The smoothed usages of policies with different numbers do not mix: after an update, that of
/// each policy follows from its own usage and its own average before, and one that was not
/// updated keeps its average.
pub proof fn lemma_policies_do_not_mix(
    infos: Seq<Info>,
    samples: Seq<ClusterSample>,
    last: Map<i32, Binary64>,
    smoothing: Binary64,
    cache: Map<i32, Binary64>,
    n: nat,
)
    requires
        n <= infos.len(),
        forall|i: int, j: int|
            0 <= i < j < n ==> (#[trigger] infos[i]).policy != (#[trigger] infos[j]).policy,
    ensures
        forall|i: int|
            0 <= i < n ==> {
                let policy = (#[trigger] infos[i]).policy;
                let usage = smoothed_usage(
                    last,
                    smoothing,
                    policy,
                    raw_usage(infos[i], samples[i]),
                );
                &&& averages(infos, samples, last, smoothing, n).contains_key(policy)
                &&& averages(infos, samples, last, smoothing, n)[policy] == usage
                &&& cached(infos, samples, last, smoothing, cache, n).contains_key(policy)
                &&& cached(infos, samples, last, smoothing, cache, n)[policy] == usage
            },
        forall|policy: i32|
            (forall|i: int| 0 <= i < n ==> (#[trigger] infos[i]).policy != policy) ==> {
                &&& #[trigger] averages(infos, samples, last, smoothing, n).contains_key(policy)
                    == last.contains_key(policy)
                &&& last.contains_key(policy) ==> last[policy] == averages(
                    infos,
                    samples,
                    last,
                    smoothing,
                    n,
                )[policy]
                &&& cached(infos, samples, last, smoothing, cache, n).contains_key(policy)
                    == cache.contains_key(policy)
                &&& cache.contains_key(policy) ==> cached(
                    infos,
                    samples,
                    last,
                    smoothing,
                    cache,
                    n,
                )[policy] == cache[policy]
            },
    decreases n,
{
    if n > 0 {
        let m = (n - 1) as nat;
        lemma_policies_do_not_mix(infos, samples, last, smoothing, cache, m);
        let policy = infos[n - 1].policy;
        assert forall|i: int| 0 <= i < m implies (#[trigger] infos[i]).policy != policy by {
            assert(infos[i].policy != infos[n - 1].policy);
        }
        let before = averages(infos, samples, last, smoothing, m);
        assert(before.contains_key(policy) == last.contains_key(policy));
    }
}

} // verus!
