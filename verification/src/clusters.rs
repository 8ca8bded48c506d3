//! What the policies and their cores are told and asked.

use crate::binary64::{at_most, greater_of, integer, lesser_of, ratio, Binary64};
use crate::cpu_cycles_reader::{counters, descriptors, Cycles, Reading};
use crate::cpu_info::{
    any_core_set, cycles_since, demand_shown, demands_shown, freq_writes, held_to, leading_at_most,
    leading_below, lemma_acceptable_are_neighbours, lemma_leading_at_most, lemma_leading_below,
    max_acceptable, min_acceptable, sample_taken, sampled, write_ignored, FreqNode, FreqWrite, Info,
    InfoError, LoadSample,
};
use crate::exactness::{
    lemma_integer_value, lemma_quotient_value, lemma_tiny, lemma_value_order, lemma_vast, rounding,
    tiny, value, within,
};
use crate::ordering::lemma_integer_exact;
use crate::params::default_params;
use crate::platform::{members, room};
use crate::sorting::{ascending, Sortable};
use crate::timing::{elapsed, Moment};
use crate::weighting::zero_usages;
use nix::sched::CpuSet;
use std::collections::HashMap;
use vstd::prelude::*;

verus! {

/// A higher frequency that is asked for never leads to a lower one.
pub proof fn lemma_held_to_monotone(freqs: Seq<isize>, lower: isize, higher: isize)
    requires
        ascending(freqs),
        freqs.len() > 0,
        lower <= higher,
    ensures
        held_to(freqs, lower) <= held_to(freqs, higher),
        held_to(freqs, lower) == lower || freqs.contains(held_to(freqs, lower)),
{
    assert(freqs[0].value() <= freqs[freqs.len() - 1].value());
    assert(freqs.contains(freqs[0]));
    assert(freqs.contains(freqs[freqs.len() - 1]));
}

/// The bounds around a frequency are those of the policy's frequencies that are next to it; where
/// there is none on one side, the frequency itself is the bound there.
pub proof fn lemma_acceptable_bounds(freqs: Seq<isize>, freq: isize)
    requires
        ascending(freqs),
    ensures
        ({
            let low = min_acceptable(freqs, freq);
            let high = max_acceptable(freqs, freq);
            &&& low <= freq <= high
            &&& freqs.contains(low) || low == freq
            &&& freqs.contains(high) || high == freq
            &&& forall|i: int|
                0 <= i < freqs.len() && #[trigger] freqs[i] <= freq ==> freqs[i] <= low
            &&& forall|i: int|
                0 <= i < freqs.len() && #[trigger] freqs[i] >= freq ==> freqs[i] >= high
            &&& (exists|i: int| 0 <= i < freqs.len() && #[trigger] freqs[i] <= freq)
                ==> freqs.contains(low)
            &&& (exists|i: int| 0 <= i < freqs.len() && #[trigger] freqs[i] >= freq)
                ==> freqs.contains(high)
        }),
{
    lemma_acceptable_are_neighbours(freqs, freq);
    let low = min_acceptable(freqs, freq);
    let high = max_acceptable(freqs, freq);
    assert forall|i: int| 0 <= i < freqs.len() && #[trigger] freqs[i] <= freq implies freqs[i]
        <= low by {
        if freqs[i] == freq {
            assert(freqs.contains(freq));
        }
    }
    assert forall|i: int| 0 <= i < freqs.len() && #[trigger] freqs[i] >= freq implies freqs[i]
        >= high by {
        if freqs[i] == freq {
            assert(freqs.contains(freq));
        }
    }
    assert(freqs.contains(low) || low == freq) by {
        let n = leading_at_most(freqs, freq);
        lemma_leading_at_most(freqs, freq);
        if n > 0 {
            assert(freqs[n - 1] == low);
        }
    }
    assert(freqs.contains(high) || high == freq) by {
        let n = leading_below(freqs, freq);
        lemma_leading_below(freqs, freq);
        if n < freqs.len() {
            assert(freqs[n as int] == high);
        }
    }
    if exists|i: int| 0 <= i < freqs.len() && #[trigger] freqs[i] <= freq {
        let i = choose|i: int| 0 <= i < freqs.len() && #[trigger] freqs[i] <= freq;
        assert(freqs[0].value() <= freqs[i].value());
        let n = leading_at_most(freqs, freq);
        lemma_leading_at_most(freqs, freq);
        assert(n > 0);
        assert(freqs[n - 1] == low);
    }
    if exists|i: int| 0 <= i < freqs.len() && #[trigger] freqs[i] >= freq {
        let i = choose|i: int| 0 <= i < freqs.len() && #[trigger] freqs[i] >= freq;
        let n = leading_below(freqs, freq);
        lemma_leading_below(freqs, freq);
        if n == freqs.len() {
            assert(freqs[i] < freq);
        }
        assert(freqs[n as int] == high);
    }
}

/// A frequency that was written is complained of if and only if it was to be compared, three
/// seconds after the last time or later, and the policy then runs beyond the frequencies next to
/// it. The complaint says what was seen and what was expected.
pub proof fn lemma_mismatch(info: Info, now: Moment, current_freq: isize)
    ensures
        ({
            let complaint = info.mismatch(now, current_freq);
            let due = elapsed(info.verify_timer, now) >= 3_000_000_000 && info.verify_freq is Some;
            let low = min_acceptable(info.freqs@, info.verify_freq->0);
            let high = max_acceptable(info.freqs@, info.verify_freq->0);
            &&& complaint is Some <==> due && (current_freq < low || current_freq > high)
            &&& complaint matches Some(m) ==> m.current_freq == current_freq
                && m.min_acceptable_freq == low && m.max_acceptable_freq == high
        }),
{
}

/// The value of the last write to a file, where there is one.
pub open spec fn last_written(writes: Seq<FreqWrite>, node: FreqNode) -> Option<isize>
    decreases writes.len(),
{
    if writes.len() == 0 {
        None
    } else if writes.last().node == node {
        Some(writes.last().freq)
    } else {
        last_written(writes.drop_last(), node)
    }
}

/// After the writes the policy goes no higher than the frequency. One that runs top used cores goes
/// no lower either; another one may go down to the lowest.
pub proof fn lemma_freq_writes(critical: bool, freq: isize, lowest: isize)
    ensures
        ({
            let writes = freq_writes(critical, freq, lowest);
            &&& last_written(writes, FreqNode::MaxFreq) == Some(freq)
            &&& last_written(writes, FreqNode::MinFreq) == Some(
                if critical {
                    freq
                } else {
                    lowest
                },
            )
            &&& writes.len() == 2
            &&& writes[0].node == (if critical {
                FreqNode::MaxFreq
            } else {
                FreqNode::MinFreq
            })
        }),
{
    let writes = freq_writes(critical, freq, lowest);
    assert(writes.drop_last() == seq![writes[0]]);
    assert(seq![writes[0]].last() == writes[0]);
    reveal_with_fuel(last_written, 3);
}

/// The cores are looked through in turn: up to the first one in the set, which settles it, or the
/// first one beyond the set, which leaves it open.
pub proof fn lemma_cores_in_turn(cpus: Seq<usize>, set: CpuSet, k: int)
    requires
        0 <= k <= cpus.len(),
        forall|i: int|
            0 <= i < k ==> #[trigger] cpus[i] < room(set) && !members(set).contains(cpus[i]),
    ensures
        k == cpus.len() ==> any_core_set(cpus, set) == Some(false),
        k < cpus.len() && cpus[k] >= room(set) ==> any_core_set(cpus, set) is None,
        k < cpus.len() && cpus[k] < room(set) && members(set).contains(cpus[k]) ==> any_core_set(
            cpus,
            set,
        ) == Some(true),
    decreases k,
{
    if k > 0 {
        let rest = cpus.drop_first();
        assert(cpus[0] < room(set));
        assert forall|i: int| 0 <= i < k - 1 implies #[trigger] rest[i] < room(set)
            && !members(set).contains(rest[i]) by {
            assert(rest[i] == cpus[i + 1]);
        }
        lemma_cores_in_turn(rest, set, k - 1);
    }
}

/// Whether writes to a policy are left out is what the map says of it; without a map, or where the
/// map says nothing, it is an error.
pub proof fn lemma_write_ignored(policy: i32, map: HashMap<i32, bool>)
    ensures
        map@.contains_key(policy) <==> write_ignored(policy, Some(&map)) is Ok,
        write_ignored(policy, Some(&map)) matches Ok(flag) ==> flag == map@[policy],
        write_ignored(policy, None) == Err::<bool, InfoError>(InfoError::IgnoreMapNotInitialized),
        !map@.contains_key(policy) ==> write_ignored(policy, Some(&map)) == Err::<bool, InfoError>(
            InfoError::PolicyIgnoreFlagNotFound,
        ),
{
}

/// The cycles since a sample and the cycles at that sample together are the cycles now; a counter
/// that went back counts for nothing.
pub proof fn lemma_cycles_add_up(last: Cycles, now: Cycles)
    ensures
        last.0 <= now.0 ==> cycles_since(last, now) + last.0 == now.0,
        last.0 >= now.0 ==> cycles_since(last, now) == 0,
{
}

/// One core that was sampled before adds one to the number of those, and another one nothing.
pub proof fn lemma_sampled_counts(last: Seq<Option<Cycles>>, n: nat)
    requires
        n <= last.len(),
    ensures
        sampled(last, n) <= n,
        (forall|i: int| 0 <= i < n ==> (#[trigger] last[i]) is Some) <==> sampled(last, n) == n,
        (forall|i: int| 0 <= i < n ==> (#[trigger] last[i]) is None) <==> sampled(last, n) == 0,
    decreases n,
{
    if n > 0 {
        let m = (n - 1) as nat;
        lemma_sampled_counts(last, m);
        if sampled(last, n) == n {
            assert(sampled(last, m) == m);
            assert(last[n - 1] is Some);
        }
        if sampled(last, n) == 0 {
            assert(sampled(last, m) == 0);
            assert(last[n - 1] is None);
        }
        if forall|i: int| 0 <= i < n ==> (#[trigger] last[i]) is Some {
            assert(last[n - 1] is Some);
        }
        if forall|i: int| 0 <= i < n ==> (#[trigger] last[i]) is None {
            assert(last[n - 1] is None);
        }
    }
}

/// The demands are those that the policies show, one of each that shows one and no others.
pub proof fn lemma_demands_shown(
    infos: Seq<Info>,
    samples: Seq<Option<LoadSample>>,
    n: nat,
    demand: Binary64,
)
    requires
        n <= infos.len(),
        n <= samples.len(),
    ensures
        demands_shown(infos, samples, n).contains(demand) <==> exists|i: int|
            0 <= i < n && #[trigger] demand_shown(infos[i], samples[i]) == Some(demand),
        demands_shown(infos, samples, n).len() <= n,
        (forall|i: int| 0 <= i < n ==> (#[trigger] demand_shown(infos[i], samples[i])) is Some)
            ==> demands_shown(infos, samples, n).len() == n,
    decreases n,
{
    if n > 0 {
        let m = (n - 1) as nat;
        lemma_demands_shown(infos, samples, m, demand);
        let before = demands_shown(infos, samples, m);
        let all = demands_shown(infos, samples, n);
        let here = demand_shown(infos[n - 1], samples[n - 1]);
        if here is Some {
            assert(all == before.push(here->0));
            assert(all[before.len() as int] == here->0);
            if before.contains(demand) {
                let k = choose|k: int| 0 <= k < before.len() && before[k] == demand;
                assert(all[k] == demand);
            }
            if all.contains(demand) && here != Some(demand) {
                let k = choose|k: int| 0 <= k < all.len() && all[k] == demand;
                assert(before[k] == demand);
            }
        }
        if exists|i: int|
            0 <= i < n && #[trigger] demand_shown(infos[i], samples[i]) == Some(demand) {
            let i = choose|i: int|
                0 <= i < n && #[trigger] demand_shown(infos[i], samples[i]) == Some(demand);
            if i < m {
                assert(before.contains(demand));
            }
        }
    }
}

/// A policy shows a demand if and only if it could be sampled and the sample has a reading of each
/// of its cores.
pub proof fn lemma_demand_shown(info: Info, sample: Option<LoadSample>)
    ensures
        demand_shown(info, sample) is Some <==> (sample is Some && forall|i: int|
            0 <= i < info.affected_cpus@.len() ==> #[trigger] sample->0.cycles@.contains_key(
                info.affected_cpus@[i] as i32,
            )),
{
}

/// A sample that has no reading of some core keeps the span that is measured, and the policy's
/// other settings.
pub proof fn lemma_failed_sample(
    before: Info,
    after: Info,
    now: Moment,
    cycles: Map<i32, Cycles>,
    references: Seq<Cycles>,
    error: InfoError,
)
    requires
        before.wf(),
        sample_taken(before, after, now, cycles, references, Err(error)),
    ensures
        after.wf(),
        after.last_instant == before.last_instant,
        after.freqs == before.freqs,
        after.affected_cpus == before.affected_cpus,
        after.demand_smoothed == before.demand_smoothed,
        exists|i: int|
            0 <= i < before.affected_cpus@.len() && !(#[trigger] cycles.contains_key(
                before.affected_cpus@[i] as i32,
            )),
        forall|i: int|
            0 <= i < before.last_cycles@.len() ==> {
                ||| #[trigger] after.last_cycles@[i] == before.last_cycles@[i]
                ||| after.last_cycles@[i] == Some(cycles[before.affected_cpus@[i] as i32])
            },
{
}

/// Each core has the descriptor that opening its counter gave, the cores being different.
pub proof fn lemma_descriptors(cpus: Seq<usize>, opened: Seq<i64>, n: nat, i: int)
    requires
        n <= cpus.len(),
        n <= opened.len(),
        0 <= i < n,
        forall|j: int| i < j < n ==> (#[trigger] cpus[j]) as i32 != cpus[i] as i32,
    ensures
        descriptors(cpus, opened, n).contains_key(cpus[i] as i32),
        descriptors(cpus, opened, n)[cpus[i] as i32] == opened[i] as i32,
    decreases n,
{
    if i < n - 1 {
        assert(cpus[n - 1] as i32 != cpus[i] as i32);
        lemma_descriptors(cpus, opened, (n - 1) as nat, i);
    }
}

/// Each core has the counter that was read of it, the last one where it was read more than once,
/// and a core that was not read has none.
pub proof fn lemma_counters(readings: Seq<Reading>, n: nat, cpu: i32)
    requires
        n <= readings.len(),
    ensures
        counters(readings, n).contains_key(cpu) <==> exists|i: int|
            0 <= i < n && (#[trigger] readings[i]).cpu == cpu,
        forall|i: int|
            0 <= i < n && (#[trigger] readings[i]).cpu == cpu && (forall|j: int|
                i < j < n ==> (#[trigger] readings[j]).cpu != cpu) ==> counters(readings, n)[cpu].0
                == readings[i].value,
    decreases n,
{
    if n > 0 {
        let m = (n - 1) as nat;
        lemma_counters(readings, m, cpu);
        if readings[n - 1].cpu != cpu && counters(readings, m).contains_key(cpu) {
            let i = choose|i: int| 0 <= i < m && (#[trigger] readings[i]).cpu == cpu;
            assert(readings[i].cpu == cpu);
        }
    }
}

/// Before the first sample there is a usage of each policy, which is zero, and of nothing else.
pub proof fn lemma_zero_at_first(infos: Seq<Info>, n: nat, policy: i32)
    requires
        n <= infos.len(),
    ensures
        zero_usages(infos, n).contains_key(policy) <==> exists|i: int|
            0 <= i < n && (#[trigger] infos[i]).policy == policy,
        zero_usages(infos, n).contains_key(policy) ==> value(zero_usages(infos, n)[policy])
            == 0 as real,
    decreases n,
{
    lemma_integer_value(0);
    if n > 0 {
        lemma_zero_at_first(infos, (n - 1) as nat, policy);
        if infos[n - 1].policy != policy && zero_usages(infos, (n - 1) as nat).contains_key(
            policy,
        ) {
            let i = choose|i: int| 0 <= i < n - 1 && (#[trigger] infos[i]).policy == policy;
            assert(infos[i].policy == policy);
        }
    }
}

/// The lesser of two numbers is one of them and at most both, and the greater one is one of them
/// and at least both. A NaN is left out.
pub proof fn lemma_lesser_and_greater(a: Binary64, b: Binary64)
    ensures
        lesser_of(a, b) == a || lesser_of(a, b) == b,
        greater_of(a, b) == a || greater_of(a, b) == b,
        !a.nan() && !b.nan() ==> at_most(lesser_of(a, b), a) && at_most(lesser_of(a, b), b)
            && at_most(a, greater_of(a, b)) && at_most(b, greater_of(a, b)),
        a.nan() ==> lesser_of(a, b) == b && greater_of(a, b) == b,
        b.nan() && !a.nan() ==> lesser_of(a, b) == a && greater_of(a, b) == a,
{
}

/// A ratio of two small whole numbers is off by no more than rounding is.
pub proof fn lemma_ratio_value(p: int, q: int)
    requires
        0 <= p <= q,
        0 < q < 0x10_0000_0000_0000,
    ensures
        ratio(p, q).finite(),
        within(value(ratio(p, q)), p as real / q as real, 2 as real * rounding()),
{
    let r = rounding();
    let x = p as real / q as real;
    lemma_tiny();
    lemma_vast();
    lemma_integer_value(p);
    lemma_integer_value(q);
    lemma_integer_value(0);
    lemma_integer_exact(q as nat);
    lemma_value_order(integer(0), integer(q));
    assert(0 as real <= x <= 1 as real) by (nonlinear_arith)
        requires
            x == p as real / q as real,
            0 <= p <= q,
            0 < q,
    ;
    lemma_quotient_value(integer(p), integer(q));
    let t = tiny();
    assert(r * x <= r && t <= r) by (nonlinear_arith)
        requires
            0 as real <= x <= 1 as real,
            r > 0 as real,
            t <= r * r,
            r <= 1 as real / 1_000_000_000_000_000 as real,
    ;
}

/// The parameters that hold where none are configured, as real numbers.
pub proof fn lemma_default_values()
    ensures
        ({
            let p = default_params();
            let d = 2 as real * rounding();
            &&& within(value(p.kp), 3 as real / 10_000 as real, d)
            &&& value(p.ki) == 0 as real
            &&& value(p.kd) == 0 as real
            &&& within(value(p.max_step_ratio), 15 as real / 100 as real, d)
            &&& within(value(p.util_decay_threshold), 3 as real / 10 as real, d)
            &&& within(value(p.demand_low), 60 as real / 100 as real, d)
            &&& within(value(p.demand_high), 85 as real / 100 as real, d)
            &&& within(value(p.demand_step_base), 5 as real / 100 as real, d)
            &&& within(value(p.demand_step_scale), 15 as real / 100 as real, d)
            &&& within(value(p.demand_up_max), 2 as real / 100 as real, d)
            &&& p.mode_residency_ms == 500
            &&& value(p.fps_ok_margin) == 5 as real
            &&& value(p.fps_ok_recover_margin) == 2 as real
        }),
{
    lemma_ratio_value(3, 10_000);
    lemma_ratio_value(15, 100);
    lemma_ratio_value(3, 10);
    lemma_ratio_value(60, 100);
    lemma_ratio_value(85, 100);
    lemma_ratio_value(5, 100);
    lemma_ratio_value(2, 100);
    lemma_integer_value(0);
    lemma_integer_value(5);
    lemma_integer_value(2);
}

} // verus!
