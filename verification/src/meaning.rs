//! What the samples of the cycle counters amount to, as real numbers.

use crate::binary64::{at_most, integer, product, quotient, sum, Binary64, MAX_NANOS};
use crate::cpu_cycles_reader::{capacity, usage, Cycles};
use crate::cpu_info::{
    current_references, cycles_since, demand_shown, mean_usage, sample_taken, sampled, total_usage,
    Info, LoadSample,
};
use crate::demand::{lemma_capacity_bounded, lemma_capacity_positive};
use crate::exactness::{
    close, lemma_close_integer, lemma_close_product, lemma_close_quotient, lemma_close_rounded,
    lemma_close_rounded_small, lemma_integer_value, lemma_product_value, lemma_quotient_value,
    lemma_seconds_value, lemma_sum_value, lemma_tiny, lemma_value_order, lemma_vast, magnitude_of,
    rounding, tiny, value, within,
};
use crate::ordering::{lemma_integer_exact, lemma_product_commutes, lemma_product_monotone};
use crate::sorting::Sortable;
use crate::timing::{in_seconds, Moment};
use crate::weighting::{raw_usage, ClusterSample};
use vstd::prelude::*;

verus! {

/// The share of a span, in nanoseconds, that a core needs for some cycles at a frequency in kHz;
/// none where the span is empty or the core stands still.
pub open spec fn share_of(cycles: int, span: nat, khz: u64) -> real {
    if span == 0 || khz == 0 {
        0 as real
    } else {
        (cycles as real) * 1_000_000 as real / ((span as real) * (khz as real))
    }
}

proof fn lemma_capacity_value(span: nat, khz: u64)
    requires
        0 < span <= MAX_NANOS,
        khz > 0,
    ensures
        close(
            value(capacity(span, khz)),
            (span as real) * (khz as real) / 1_000_000 as real,
            15,
        ),
{
    let k = khz as real;
    let s = span as real;
    let hertz = product(integer(khz as int), integer(1000));
    let time = in_seconds(span);
    let r = rounding();
    lemma_tiny();
    lemma_vast();
    lemma_close_integer(khz as nat);
    lemma_close_integer(1000);
    lemma_seconds_value(span);
    let a = value(integer(khz as int));
    let b = value(integer(1000));
    lemma_close_product(a, k, 1, b, 1000 as real, 0);
    let v = k * 1000 as real;
    assert(magnitude_of(a * b) <= 0x1_0000_0000_0000_0000_0000_0000_0000_0000int as real) by {
        assert((2 as real) * r * v <= v) by (nonlinear_arith)
            requires
                r <= 1 as real / 1_000_000_000_000_000 as real,
                v >= 0 as real,
        ;
    }
    lemma_product_value(integer(khz as int), integer(1000));
    assert(v >= r);
    lemma_close_rounded(value(hertz), a * b, v, 2);
    let w = s / 1_000_000_000 as real;
    let c = value(time);
    let d = value(hertz);
    lemma_close_product(c, w, 6, d, v, 5);
    assert(w * v == s * k / 1_000_000 as real) by (nonlinear_arith)
        requires
            w == s / 1_000_000_000 as real,
            v == k * 1000 as real,
    ;
    let m = w * v;
    assert(m >= 1 as real / 1_000_000 as real) by (nonlinear_arith)
        requires
            m == s * k / 1_000_000 as real,
            s >= 1 as real,
            k >= 1 as real,
    ;
    assert(m <= 0x1_0000_0000_0000_0000_0000_0000_0000_0000int as real
        * 0x1_0000_0000_0000_0000 as real) by (nonlinear_arith)
        requires
            m == s * k / 1_000_000 as real,
            0 as real <= s <= 0x1_0000_0000_0000_0000_0000_0000_0000_0000int as real,
            0 as real <= k <= 0x1_0000_0000_0000_0000 as real,
    ;
    assert((12 as real) * r * m <= m) by (nonlinear_arith)
        requires
            r <= 1 as real / 1_000_000_000_000_000 as real,
            m >= 0 as real,
    ;
    lemma_product_value(time, hertz);
    lemma_close_rounded(value(capacity(span, khz)), c * d, m, 12);
}

/// The usage of a core is the share of the span that it needed for its cycles at the frequency,
/// up to rounding.
pub proof fn lemma_usage_value(cycles: u64, span: nat, khz: u64)
    requires
        span <= MAX_NANOS,
    ensures
        usage(cycles, span, khz).finite(),
        within(
            value(usage(cycles, span, khz)),
            share_of(cycles as int, span, khz),
            (20 as real) * rounding() * share_of(cycles as int, span, khz) + tiny(),
        ),
        share_of(cycles as int, span, khz) >= 0 as real,
        share_of(cycles as int, span, khz) <= 0x1_0000_0000_0000_0000 as real * 1_000_000 as real,
{
    let full = capacity(span, khz);
    let r = rounding();
    lemma_tiny();
    lemma_vast();
    lemma_integer_exact(0);
    lemma_integer_value(0);
    lemma_capacity_bounded(span, khz);
    lemma_value_order(full, integer(0));
    if span == 0 || khz == 0 {
        assert((20 as real) * r * (0 as real) == 0 as real) by (nonlinear_arith);
        if khz > 0 {
            lemma_capacity_positive(span, khz);
        } else {
            lemma_no_hertz(span);
        }
        assert(at_most(full, integer(0)));
    } else {
        let c = cycles as real;
        let s = span as real;
        let k = khz as real;
        lemma_capacity_positive(span, khz);
        lemma_capacity_value(span, khz);
        lemma_close_integer(cycles as nat);
        let m = s * k / 1_000_000 as real;
        assert(m >= 1 as real / 1_000_000 as real) by (nonlinear_arith)
            requires
                m == s * k / 1_000_000 as real,
                s >= 1 as real,
                k >= 1 as real,
        ;
        let n = integer(cycles as int);
        lemma_close_quotient(value(n), c, 1, value(full), m, 15);
        let v = c / m;
        assert(v == share_of(cycles as int, span, khz)) by {
            assert(c / m == c * 1_000_000 as real / (s * k)) by (nonlinear_arith)
                requires
                    m == s * k / 1_000_000 as real,
                    m > 0 as real,
                    s * k > 0 as real,
            ;
        }
        assert(0 as real <= v && v <= 0x1_0000_0000_0000_0000 as real * 1_000_000 as real)
            by (nonlinear_arith)
            requires
                v == c / m,
                m >= 1 as real / 1_000_000 as real,
                0 as real <= c <= 0x1_0000_0000_0000_0000 as real,
        ;
        let p = value(n) / value(full);
        assert((17 as real) * r * v <= v) by (nonlinear_arith)
            requires
                r <= 1 as real / 1_000_000_000_000_000 as real,
                v >= 0 as real,
        ;
        lemma_quotient_value(n, full);
        lemma_close_rounded_small(value(quotient(n, full)), p, v, 17);
        assert((19 as real) * r * v <= (20 as real) * r * v) by (nonlinear_arith)
            requires
                r > 0 as real,
                v >= 0 as real,
        ;
    }
}

/// A core that stands still has no room for cycles.
proof fn lemma_no_hertz(span: nat)
    requires
        span <= MAX_NANOS,
    ensures
        capacity(span, 0).order() == 0,
        !capacity(span, 0).nan(),
{
    let hertz = product(integer(0), integer(1000));
    lemma_integer_exact(0);
    lemma_integer_exact(1000);
    lemma_integer_value(0);
    lemma_value_order(integer(0), integer(0));
    lemma_product_monotone(integer(0), integer(0), integer(1000));
    lemma_seconds_value(span);
    lemma_product_monotone(hertz, hertz, in_seconds(span));
    lemma_product_commutes(hertz, in_seconds(span));
}

/// How many of the first `n` cores have a reading that a new one can be measured from.
pub open spec fn measurable(last: Seq<Option<Cycles>>, n: nat) -> nat
    decreases n,
{
    if n == 0 {
        0
    } else if last[n - 1] is Some {
        measurable(last, (n - 1) as nat) + 1
    } else {
        measurable(last, (n - 1) as nat)
    }
}

/// What the measurable ones of the first `n` cores needed of the span, together: each of them
/// its cycles since the last reading, none where its counter went back, at its frequency.
pub open spec fn shares_together(
    last: Seq<Option<Cycles>>,
    cpus: Seq<usize>,
    cycles: Map<i32, Cycles>,
    khz: Seq<Cycles>,
    span: nat,
    n: nat,
) -> real
    decreases n,
{
    if n == 0 {
        0 as real
    } else {
        let others = shares_together(last, cpus, cycles, khz, span, (n - 1) as nat);
        match last[n - 1] {
            None => others,
            Some(then) => {
                let now = cycles[cpus[n - 1] as i32].0;
                let ran: int = if now > then.0 {
                    now - then.0
                } else {
                    0
                };
                others + share_of(ran, span, khz[n - 1].0)
            },
        }
    }
}

/// Adding one more share to a total.
proof fn lemma_added(t: real, e: real, u: real, f: real, z: real, n: nat)
    requires
        e >= 0 as real,
        f >= 0 as real,
        n <= 1_000_000_000,
        within(t, e, ((20 + 2 * n) as real) * rounding() * e + ((2 * n) as real) * tiny()),
        within(u, f, (20 as real) * rounding() * f + tiny()),
        within(z, t + u, rounding() * magnitude_of(t + u)),
    ensures
        within(
            z,
            e + f,
            ((22 + 2 * n) as real) * rounding() * (e + f) + ((2 * n + 2) as real) * tiny(),
        ),
{
    let r = rounding();
    let y = tiny();
    let a = (20 + 2 * n) as real;
    let b = (2 * n) as real;
    let x = e + f;
    lemma_tiny();
    // The sum before rounding.
    assert(a * r * x == a * r * e + a * r * f) by (nonlinear_arith)
        requires
            x == e + f,
    ;
    assert(20 as real * r * f <= a * r * f) by (nonlinear_arith)
        requires
            a >= 20 as real,
            r > 0 as real,
            f >= 0 as real,
    ;
    assert(within(t + u, x, a * r * x + b * y + y));
    let g = a * r * x + b * y + y;
    assert(a * r <= 1 as real / 1000 as real && b * y + y <= 1 as real) by (nonlinear_arith)
        requires
            0 as real <= a <= 3_000_000_000 as real,
            0 as real <= b <= 2_000_000_000 as real,
            r > 0 as real,
            y > 0 as real,
            y <= r * r,
            r <= 1 as real / 1_000_000_000_000_000 as real,
    ;
    assert(a * r * x <= x / 1000 as real) by (nonlinear_arith)
        requires
            a * r <= 1 as real / 1000 as real,
            x >= 0 as real,
    ;
    let m = magnitude_of(t + u);
    assert(m <= x + x / 1000 as real + (b * y + y)) by {
        assert(a * r * x >= 0 as real) by (nonlinear_arith)
            requires
                a >= 0 as real,
                r > 0 as real,
                x >= 0 as real,
        ;
        assert(b * y >= 0 as real) by (nonlinear_arith)
            requires
                b >= 0 as real,
                y > 0 as real,
        ;
    }
    let small = b * y + y;
    assert(r * m <= 2 as real * r * x + r * small) by (nonlinear_arith)
        requires
            m <= x + x / 1000 as real + small,
            x >= 0 as real,
            r > 0 as real,
    ;
    assert(r * small <= y) by (nonlinear_arith)
        requires
            small == b * y + y,
            0 as real <= b <= 2_000_000_000 as real,
            r > 0 as real,
            r <= 1 as real / 1_000_000_000_000_000 as real,
            y > 0 as real,
    ;
    assert((22 + 2 * n) as real == a + 2 as real);
    assert((2 * n + 2) as real == b + 2 as real);
    assert((a + 2 as real) * r * x == a * r * x + 2 as real * r * x) by (nonlinear_arith);
    assert((b + 2 as real) * y == b * y + y + y) by (nonlinear_arith);
}

proof fn lemma_total_value(
    last: Seq<Option<Cycles>>,
    cpus: Seq<usize>,
    cycles: Map<i32, Cycles>,
    khz: Seq<Cycles>,
    span: nat,
    n: nat,
)
    requires
        span <= MAX_NANOS,
        n <= 1_000_000_000,
    ensures
        ({
            let total = total_usage(last, cpus, cycles, khz, span, n);
            let exact = shares_together(last, cpus, cycles, khz, span, n);
            &&& total.finite()
            &&& exact >= 0 as real
            &&& exact <= (n as real) * 0x1_0000_0000_0000_0000 as real * 1_000_000 as real
            &&& within(
                value(total),
                exact,
                ((20 + 2 * n) as real) * rounding() * exact + ((2 * n) as real) * tiny(),
            )
        }),
        sampled(last, n) == measurable(last, n),
        measurable(last, n) <= n,
    decreases n,
{
    let r = rounding();
    lemma_tiny();
    if n == 0 {
        lemma_integer_value(0);
        assert((20 as real) * r * (0 as real) == 0 as real) by (nonlinear_arith);
        let y = tiny();
        assert((0 as real) * y == 0 as real) by (nonlinear_arith);
        assert((0 as real) * 0x1_0000_0000_0000_0000 as real * 1_000_000 as real == 0 as real);
    } else {
        let m = (n - 1) as nat;
        let w = m as real;
        lemma_total_value(last, cpus, cycles, khz, span, m);
        let e = shares_together(last, cpus, cycles, khz, span, m);
        let before = total_usage(last, cpus, cycles, khz, span, m);
        let cap = 0x1_0000_0000_0000_0000 as real * 1_000_000 as real;
        assert((n as real) * cap == w * cap + cap) by (nonlinear_arith)
            requires
                n as real == w + 1 as real,
        ;
        assert((n as real) * cap == (n as real) * 0x1_0000_0000_0000_0000 as real
            * 1_000_000 as real) by (nonlinear_arith)
            requires
                cap == 0x1_0000_0000_0000_0000 as real * 1_000_000 as real,
        ;
        assert(w * cap == w * 0x1_0000_0000_0000_0000 as real * 1_000_000 as real)
            by (nonlinear_arith)
            requires
                cap == 0x1_0000_0000_0000_0000 as real * 1_000_000 as real,
        ;
        match last[n - 1] {
            Some(then) => {
                let ran = cycles_since(then, cycles[cpus[n - 1] as i32]);
                let u = usage(ran, span, khz[n - 1].0);
                let f = share_of(ran as int, span, khz[n - 1].0);
                lemma_usage_value(ran, span, khz[n - 1].0);
                let t = value(before);
                lemma_moderate(t, e, m);
                lemma_moderate_one(value(u), f);
                lemma_vast();
                lemma_sum_value(before, u);
                lemma_added(t, e, value(u), f, value(sum(before, u)), m);
            },
            None => {
                lemma_wider(value(before), e, m);
            },
        }
    }
}

/// A total that is about right is not vast.
proof fn lemma_moderate(t: real, e: real, n: nat)
    requires
        0 as real <= e <= (n as real) * 0x1_0000_0000_0000_0000 as real * 1_000_000 as real,
        n <= 1_000_000_000,
        within(t, e, ((20 + 2 * n) as real) * rounding() * e + ((2 * n) as real) * tiny()),
    ensures
        magnitude_of(t) <= 0x1_0000_0000_0000_0000_0000_0000_0000_0000int as real,
{
    let r = rounding();
    let y = tiny();
    let a = (20 + 2 * n) as real;
    let b = (2 * n) as real;
    lemma_tiny();
    assert(a * r * e <= e && b * y <= 1 as real && a * r * e >= 0 as real && b * y >= 0 as real)
        by (nonlinear_arith)
        requires
            0 as real <= a <= 3_000_000_000 as real,
            0 as real <= b <= 2_000_000_000 as real,
            r > 0 as real,
            y > 0 as real,
            y <= r * r,
            r <= 1 as real / 1_000_000_000_000_000 as real,
            e >= 0 as real,
    ;
    let w = n as real;
    assert(w * 0x1_0000_0000_0000_0000 as real * 1_000_000 as real <= 1_000_000_000 as real
        * 0x1_0000_0000_0000_0000 as real * 1_000_000 as real) by (nonlinear_arith)
        requires
            0 as real <= w <= 1_000_000_000 as real,
    ;
}

proof fn lemma_moderate_one(u: real, f: real)
    requires
        0 as real <= f <= 0x1_0000_0000_0000_0000 as real * 1_000_000 as real,
        within(u, f, (20 as real) * rounding() * f + tiny()),
    ensures
        magnitude_of(u) <= 0x1_0000_0000_0000_0000_0000_0000_0000_0000int as real,
{
    let r = rounding();
    let y = tiny();
    lemma_tiny();
    assert((20 as real) * r * f <= f && (20 as real) * r * f >= 0 as real && y <= 1 as real)
        by (nonlinear_arith)
        requires
            r > 0 as real,
            y <= r * r,
            r <= 1 as real / 1_000_000_000_000_000 as real,
            f >= 0 as real,
    ;
}

proof fn lemma_wider(t: real, e: real, n: nat)
    requires
        e >= 0 as real,
        within(t, e, ((20 + 2 * n) as real) * rounding() * e + ((2 * n) as real) * tiny()),
    ensures
        within(
            t,
            e,
            ((22 + 2 * n) as real) * rounding() * e + ((2 * n + 2) as real) * tiny(),
        ),
{
    let r = rounding();
    let y = tiny();
    let a = (20 + 2 * n) as real;
    let b = (2 * n) as real;
    lemma_tiny();
    assert((a + 2 as real) * r * e >= a * r * e && (b + 2 as real) * y >= b * y)
        by (nonlinear_arith)
        requires
            r > 0 as real,
            y > 0 as real,
            e >= 0 as real,
    ;
    assert((22 + 2 * n) as real == a + 2 as real);
    assert((2 * n + 2) as real == b + 2 as real);
}

/// The average usage of the cores that could be measured is what they needed of the span,
/// together, over their number, up to rounding; it is zero where none could be.
pub proof fn lemma_mean_usage_value(
    last: Seq<Option<Cycles>>,
    cpus: Seq<usize>,
    cycles: Map<i32, Cycles>,
    khz: Seq<Cycles>,
    span: nat,
)
    requires
        span <= MAX_NANOS,
        cpus.len() <= 1_000_000_000,
    ensures
        ({
            let n = cpus.len();
            let count = measurable(last, n);
            let mean = value(mean_usage(last, cpus, cycles, khz, span));
            let exact = shares_together(last, cpus, cycles, khz, span, n) / count as real;
            &&& mean_usage(last, cpus, cycles, khz, span).finite()
            &&& count == 0 ==> mean == 0 as real
            &&& count > 0 ==> within(
                mean,
                exact,
                ((22 + 2 * n) as real) * rounding() * exact + ((2 * n + 2) as real) * tiny(),
            )
        }),
{
    let n = cpus.len();
    let count = measurable(last, n);
    let total = total_usage(last, cpus, cycles, khz, span, n);
    let e = shares_together(last, cpus, cycles, khz, span, n);
    let r = rounding();
    let y = tiny();
    lemma_tiny();
    lemma_total_value(last, cpus, cycles, khz, span, n);
    lemma_integer_value(0);
    if count > 0 {
        let k = count as real;
        let d = integer(count as int);
        let t = value(total);
        lemma_close_integer(count);
        lemma_integer_value(count as int);
        lemma_moderate(t, e, n);
        lemma_vast();
        let q = t / k;
        assert(magnitude_of(q) <= magnitude_of(t)) by {
            assert((t >= 0 as real ==> 0 as real <= q && q <= t) && (t <= 0 as real ==> t <= q && q
                <= 0 as real)) by (nonlinear_arith)
                requires
                    q == t / k,
                    k >= 1 as real,
            ;
        }
        lemma_quotient_value(total, d);
        let z = value(quotient(total, d));
        let x = e / k;
        let a = (20 + 2 * n) as real;
        let b = (2 * n) as real;
        // The total over the number is as close as the total is.
        assert(q - x <= a * r * x + b * y && x - q <= a * r * x + b * y && x >= 0 as real) by {
            assert(b * y >= 0 as real) by (nonlinear_arith)
                requires
                    b >= 0 as real,
                    y > 0 as real,
            ;
            let c = b * y;
            assert(q - x <= a * r * x + c && x - q <= a * r * x + c && x >= 0 as real)
                by (nonlinear_arith)
                requires
                    q == t / k,
                    x == e / k,
                    k >= 1 as real,
                    t - e <= a * r * e + c,
                    e - t <= a * r * e + c,
                    c >= 0 as real,
                    e >= 0 as real,
            ;
        }
        assert(a * r * x <= x && b * y <= 1 as real) by (nonlinear_arith)
            requires
                0 as real <= a <= 3_000_000_000 as real,
                0 as real <= b <= 2_000_000_000 as real,
                r > 0 as real,
                y > 0 as real,
                y <= r * r,
                r <= 1 as real / 1_000_000_000_000_000 as real,
                x >= 0 as real,
        ;
        let c = b * y;
        let m = magnitude_of(q);
        assert(m <= x + x + c) by {
            assert(a * r * x >= 0 as real) by (nonlinear_arith)
                requires
                    a >= 0 as real,
                    r > 0 as real,
                    x >= 0 as real,
            ;
            assert(c >= 0 as real) by (nonlinear_arith)
                requires
                    c == b * y,
                    b >= 0 as real,
                    y > 0 as real,
            ;
        }
        assert(r * m <= 2 as real * r * x + r * c) by (nonlinear_arith)
            requires
                m <= x + x + c,
                r > 0 as real,
        ;
        assert(r * c <= y) by (nonlinear_arith)
            requires
                c == b * y,
                0 as real <= b <= 2_000_000_000 as real,
                r > 0 as real,
                r <= 1 as real / 1_000_000_000_000_000 as real,
                y > 0 as real,
        ;
        assert((22 + 2 * n) as real == a + 2 as real);
        assert((2 * n + 2) as real == b + 2 as real);
        assert((a + 2 as real) * r * x == a * r * x + 2 as real * r * x) by (nonlinear_arith);
        assert((b + 2 as real) * y == b * y + y + y) by (nonlinear_arith);
    }
}

proof fn lemma_all_measurable(last: Seq<Option<Cycles>>, n: nat)
    requires
        n <= last.len(),
        forall|i: int| 0 <= i < n ==> #[trigger] last[i] is Some,
    ensures
        measurable(last, n) == n,
    decreases n,
{
    if n > 0 {
        lemma_all_measurable(last, (n - 1) as nat);
        assert(last[n - 1] is Some);
    }
}

/// The cycles that a core ran through between two readings of its counter.
pub open spec fn ran(then: Option<Cycles>, now: Cycles) -> int {
    match then {
        Some(count) => if now.0 > count.0 {
            now.0 - count.0
        } else {
            0
        },
        None => 0,
    }
}

proof fn lemma_one_busy(
    last: Seq<Option<Cycles>>,
    cpus: Seq<usize>,
    cycles: Map<i32, Cycles>,
    khz: Seq<Cycles>,
    span: nat,
    n: nat,
    busy: int,
)
    requires
        n <= last.len(),
        forall|i: int| 0 <= i < n ==> #[trigger] last[i] is Some,
        forall|i: int|
            0 <= i < n && i != busy ==> ran(last[i], #[trigger] cycles[cpus[i] as i32]) == 0,
    ensures
        shares_together(last, cpus, cycles, khz, span, n) == (if 0 <= busy < n {
            share_of(ran(last[busy], cycles[cpus[busy] as i32]), span, khz[busy].0)
        } else {
            0 as real
        }),
    decreases n,
{
    if n > 0 {
        lemma_one_busy(last, cpus, cycles, khz, span, (n - 1) as nat, busy);
        assert(last[n - 1] is Some);
        if n - 1 != busy {
            assert(ran(last[n - 1], cycles[cpus[n - 1] as i32]) == 0);
            lemma_no_share(span, khz[n - 1].0);
        }
    }
}

proof fn lemma_no_share(span: nat, khz: u64)
    ensures
        share_of(0, span, khz) == 0 as real,
{
    if span > 0 && khz > 0 {
        let d = (span as real) * (khz as real);
        assert(d > 0 as real) by (nonlinear_arith)
            requires
                d == (span as real) * (khz as real),
                span as real > 0 as real,
                khz as real > 0 as real,
        ;
        assert((0 as real) * 1_000_000 as real / d == 0 as real) by (nonlinear_arith)
            requires
                d > 0 as real,
        ;
    }
}

/// Where all cores were sampled before and only one of them ran, whichever it is, the average is
/// its share over the number of cores, up to rounding.
pub proof fn lemma_one_busy_core(
    last: Seq<Option<Cycles>>,
    cpus: Seq<usize>,
    cycles: Map<i32, Cycles>,
    khz: Seq<Cycles>,
    span: nat,
    busy: int,
)
    requires
        span <= MAX_NANOS,
        cpus.len() <= 1_000_000_000,
        last.len() == cpus.len(),
        0 <= busy < cpus.len(),
        forall|i: int| 0 <= i < last.len() ==> #[trigger] last[i] is Some,
        forall|i: int|
            0 <= i < cpus.len() && i != busy ==> ran(
                last[i],
                #[trigger] cycles[cpus[i] as i32],
            ) == 0,
    ensures
        ({
            let n = cpus.len();
            let share = share_of(ran(last[busy], cycles[cpus[busy] as i32]), span, khz[busy].0)
                / n as real;
            within(
                value(mean_usage(last, cpus, cycles, khz, span)),
                share,
                ((22 + 2 * n) as real) * rounding() * share + ((2 * n + 2) as real) * tiny(),
            )
        }),
{
    let n = cpus.len();
    lemma_mean_usage_value(last, cpus, cycles, khz, span);
    lemma_all_measurable(last, n);
    lemma_one_busy(last, cpus, cycles, khz, span, n, busy);
}

proof fn lemma_equally_busy(
    last: Seq<Option<Cycles>>,
    cpus: Seq<usize>,
    cycles: Map<i32, Cycles>,
    khz: Seq<Cycles>,
    span: nat,
    n: nat,
    share: real,
)
    requires
        n <= last.len(),
        forall|i: int|
            0 <= i < n && (#[trigger] last[i]) is Some ==> share_of(
                ran(last[i], cycles[cpus[i] as i32]),
                span,
                khz[i].0,
            ) == share,
    ensures
        shares_together(last, cpus, cycles, khz, span, n) == (measurable(last, n) as real) * share,
    decreases n,
{
    if n > 0 {
        let m = measurable(last, (n - 1) as nat) as real;
        lemma_equally_busy(last, cpus, cycles, khz, span, (n - 1) as nat, share);
        assert((m + 1 as real) * share == m * share + share) by (nonlinear_arith);
        assert(last[n - 1] is Some ==> share_of(
            ran(last[n - 1], cycles[cpus[n - 1] as i32]),
            span,
            khz[n - 1].0,
        ) == share);
    } else {
        assert((0 as real) * share == 0 as real) by (nonlinear_arith);
    }
}

/// Where the cores that were sampled before needed the same share of the span, that share is
/// their average, up to rounding. Cores without an earlier sample do not count.
pub proof fn lemma_equally_busy_cores(
    last: Seq<Option<Cycles>>,
    cpus: Seq<usize>,
    cycles: Map<i32, Cycles>,
    khz: Seq<Cycles>,
    span: nat,
    share: real,
)
    requires
        span <= MAX_NANOS,
        cpus.len() <= 1_000_000_000,
        last.len() == cpus.len(),
        exists|i: int| 0 <= i < last.len() && (#[trigger] last[i]) is Some,
        forall|i: int|
            0 <= i < last.len() && (#[trigger] last[i]) is Some ==> share_of(
                ran(last[i], cycles[cpus[i] as i32]),
                span,
                khz[i].0,
            ) == share,
    ensures
        ({
            let n = cpus.len();
            within(
                value(mean_usage(last, cpus, cycles, khz, span)),
                share,
                ((22 + 2 * n) as real) * rounding() * share + ((2 * n + 2) as real) * tiny(),
            )
        }),
{
    let n = cpus.len();
    lemma_mean_usage_value(last, cpus, cycles, khz, span);
    lemma_equally_busy(last, cpus, cycles, khz, span, n, share);
    let i = choose|i: int| 0 <= i < last.len() && (#[trigger] last[i]) is Some;
    lemma_some_measurable(last, n, i);
    let k = measurable(last, n) as real;
    assert((k * share) / k == share) by (nonlinear_arith)
        requires
            k > 0 as real,
    ;
}

proof fn lemma_some_measurable(last: Seq<Option<Cycles>>, n: nat, i: int)
    requires
        0 <= i < n <= last.len(),
        last[i] is Some,
    ensures
        measurable(last, n) > 0,
    decreases n,
{
    if i < n - 1 {
        lemma_some_measurable(last, (n - 1) as nat, i);
    }
}

/// The load demand rate of a policy holds the cycles of each core against the highest of the
/// frequencies that the policy has.
pub proof fn lemma_demand_reference(info: Info, i: int, k: int)
    requires
        info.wf(),
        0 <= i < info.affected_cpus@.len(),
        0 <= k < info.freqs@.len(),
        forall|j: int| 0 <= j < info.freqs@.len() ==> 0 <= #[trigger] info.freqs@[j],
    ensures
        info.highest_references().len() == info.affected_cpus@.len(),
        info.freqs@[k] <= info.highest_references()[i].0,
        exists|j: int|
            0 <= j < info.freqs@.len() && #[trigger] info.freqs@[j]
                == info.highest_references()[i].0,
{
    let n = info.freqs@.len();
    assert(info.freqs@[k].value() <= info.freqs@[n - 1].value());
    assert(info.freqs@[n - 1] == info.highest_references()[i].0);
}

/// The usage of a policy holds the cycles of each core against the frequency that it runs at.
pub proof fn lemma_usage_reference(freqs_khz: Seq<u64>, i: int)
    requires
        0 <= i < freqs_khz.len(),
    ensures
        current_references(freqs_khz).len() == freqs_khz.len(),
        current_references(freqs_khz)[i].0 == freqs_khz[i],
{
}

/// The usage of a policy since the sample before is what its cores needed of the time since then,
/// together, over the number of those that were sampled before, up to rounding.
pub proof fn lemma_policy_usage_value(
    info: Info,
    references: Seq<Cycles>,
    now: Moment,
    cycles: Map<i32, Cycles>,
    span: nat,
)
    requires
        info.last_instant.nanos + span == now.nanos,
        span <= MAX_NANOS,
        info.affected_cpus@.len() <= 1_000_000_000,
    ensures
        ({
            let n = info.affected_cpus@.len();
            let last = info.last_cycles@;
            let count = measurable(last, n);
            let mean = value(info.usage_against(references, now, cycles));
            let exact = shares_together(last, info.affected_cpus@, cycles, references, span, n)
                / count as real;
            &&& count == 0 ==> mean == 0 as real
            &&& count > 0 ==> within(
                mean,
                exact,
                ((22 + 2 * n) as real) * rounding() * exact + ((2 * n + 2) as real) * tiny(),
            )
        }),
{
    lemma_mean_usage_value(info.last_cycles@, info.affected_cpus@, cycles, references, span);
}

/// The demand that a policy shows is its usage, with the highest of its frequencies as what each
/// core could have run at. The usage of a policy has the frequencies that its cores do run at.
pub proof fn lemma_policy_references(
    info: Info,
    sample: LoadSample,
    cluster: ClusterSample,
    top: isize,
)
    requires
        info.wf(),
        top > 0,
        info.freqs@.contains(top),
        forall|i: int| 0 <= i < info.freqs@.len() ==> #[trigger] info.freqs@[i] <= top,
    ensures
        ({
            let n = info.affected_cpus@.len();
            demand_shown(info, Some(sample)) matches Some(demand) ==> demand == info.usage_against(
                Seq::new(n, |i: int| Cycles(top as u64)),
                sample.now,
                sample.cycles@,
            )
        }),
        raw_usage(info, cluster) == info.usage_against(
            Seq::new(cluster.freqs_khz@.len(), |i: int| Cycles(cluster.freqs_khz@[i])),
            cluster.now,
            cluster.cycles@,
        ),
{
    let n = info.affected_cpus@.len();
    let k = choose|k: int| 0 <= k < info.freqs@.len() && info.freqs@[k] == top;
    assert(info.freqs@[k].value() <= info.freqs@[info.freqs@.len() - 1].value());
    assert(info.freqs@[info.freqs@.len() - 1] <= top);
    assert(info.highest_references() == Seq::new(n, |i: int| Cycles(top as u64)));
    assert(current_references(cluster.freqs_khz@) == Seq::new(
        cluster.freqs_khz@.len(),
        |i: int| Cycles(cluster.freqs_khz@[i]),
    ));
}

/// A sample counts the cycles since the sample before: after one, every core of the policy is
/// measured from the reading that it then had, and the span starts when it was taken.
pub proof fn lemma_samples_join(
    before: Info,
    after: Info,
    now: Moment,
    cycles: Map<i32, Cycles>,
    references: Seq<Cycles>,
    result: Binary64,
    i: int,
)
    requires
        before.wf(),
        sample_taken(before, after, now, cycles, references, Ok(result)),
        0 <= i < before.affected_cpus@.len(),
    ensures
        after.last_cycles@[i] == Some(cycles[before.affected_cpus@[i] as i32]),
        after.last_instant == now,
        after.affected_cpus == before.affected_cpus,
        after.freqs == before.freqs,
        result == before.usage_against(references, now, cycles),
{
}

} // verus!
