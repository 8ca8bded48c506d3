//! Smoothed usage of the frequency policies.

use crate::binary64::{difference, integer, product, ratio, sum, Binary64, MAX_NANOS};
use crate::cpu_cycles_reader::Cycles;
use crate::cpu_info::{covers, current_references, sample_taken, Info, InfoError};
use crate::timing::{elapsed, Moment};
use std::collections::HashMap;
use vstd::prelude::*;
use vstd::std_specs::hash::spec_keys_iter;
use vstd::std_specs::iter::IteratorSpec;

verus! {

/// What was read of one policy: when, the counters, and the frequencies of its cores in kHz.
pub struct ClusterSample {
    pub now: Moment,
    pub cycles: HashMap<i32, Cycles>,
    pub freqs_khz: Vec<u64>,
}

/// A moving average of the usage of each policy.
#[derive(Debug)]
pub struct FrequencyUsageCalculator {
    pub last_usage: HashMap<i32, Binary64>,
    pub smoothing: Binary64,
}

/// The moving average of a policy after a usage of `raw`. The first usage is taken as it is.
pub open spec fn smoothed_usage(
    last_usage: Map<i32, Binary64>,
    smoothing: Binary64,
    policy: i32,
    raw: Binary64,
) -> Binary64 {
    if last_usage.contains_key(policy) {
        sum(
            product(smoothing, last_usage[policy]),
            product(difference(integer(1), smoothing), raw),
        )
    } else {
        raw
    }
}

impl FrequencyUsageCalculator {
    fn new(smoothing: Binary64) -> (r: Self)
        ensures
            r.last_usage@ == Map::<i32, Binary64>::empty(),
            r.smoothing == smoothing,
    {
        FrequencyUsageCalculator { last_usage: HashMap::new(), smoothing }
    }

    fn update(&mut self, policy: i32, raw_usage: Binary64) -> (r: Binary64)
        ensures
            r == smoothed_usage(old(self).last_usage@, old(self).smoothing, policy, raw_usage),
            final(self).last_usage@ == old(self).last_usage@.insert(policy, r),
            final(self).smoothing == old(self).smoothing,
    {
        broadcast use vstd::std_specs::hash::group_hash_axioms;

        let smoothed: Binary64 = match self.last_usage.get(&policy) {
            Some(last) => {
                let rest = Binary64::from_u64(1).sub(self.smoothing);
                self.smoothing.mul(*last).add(rest.mul(raw_usage))
            },
            None => raw_usage,
        };
        self.last_usage.insert(policy, smoothed);
        smoothed
    }
}

/// The smoothed usage of all policies.
#[derive(Debug)]
pub struct WeightedCalculator {
    /// The smoothed usage of each policy.
    pub cache: HashMap<i32, Binary64>,
    pub freq_calc: FrequencyUsageCalculator,
    /// Whether the first sample, which later ones are measured against, has been taken.
    pub first_sample_done: bool,
}

/// The usage zero for each of the first `n` policies.
pub open spec fn zero_usages(infos: Seq<Info>, n: nat) -> Map<i32, Binary64>
    decreases n,
{
    if n == 0 {
        Map::empty()
    } else {
        zero_usages(infos, (n - 1) as nat).insert(infos[n - 1].policy, integer(0))
    }
}

/// A sample fits a policy: it has a frequency for each core, and the time since the sample
/// before is a span.
pub open spec fn fits(info: Info, sample: ClusterSample) -> bool {
    &&& info.wf()
    &&& sample.freqs_khz@.len() == info.affected_cpus@.len()
    &&& elapsed(info.last_instant, sample.now) <= MAX_NANOS
}

/// The first `n` policies have samples that cover their cores.
pub open spec fn sampleable(infos: Seq<Info>, samples: Seq<ClusterSample>, n: nat) -> bool {
    n <= samples.len() && forall|i: int|
        0 <= i < n ==> #[trigger] covers(
            samples[i].cycles@,
            infos[i].affected_cpus@,
            infos[i].affected_cpus@.len(),
        )
}

/// The usage of a policy that a sample shows.
pub open spec fn raw_usage(info: Info, sample: ClusterSample) -> Binary64 {
    info.usage_against(current_references(sample.freqs_khz@), sample.now, sample.cycles@)
}

/// The moving averages after the first `n` policies.
pub open spec fn averages(
    infos: Seq<Info>,
    samples: Seq<ClusterSample>,
    last: Map<i32, Binary64>,
    smoothing: Binary64,
    n: nat,
) -> Map<i32, Binary64>
    decreases n,
{
    if n == 0 {
        last
    } else {
        let before = averages(infos, samples, last, smoothing, (n - 1) as nat);
        let info = infos[n - 1];
        before.insert(
            info.policy,
            smoothed_usage(before, smoothing, info.policy, raw_usage(info, samples[n - 1])),
        )
    }
}

/// The cached usages after the first `n` policies.
pub open spec fn cached(
    infos: Seq<Info>,
    samples: Seq<ClusterSample>,
    last: Map<i32, Binary64>,
    smoothing: Binary64,
    cache: Map<i32, Binary64>,
    n: nat,
) -> Map<i32, Binary64>
    decreases n,
{
    if n == 0 {
        cache
    } else {
        let policy = infos[n - 1].policy;
        cached(infos, samples, last, smoothing, cache, (n - 1) as nat).insert(
            policy,
            averages(infos, samples, last, smoothing, n)[policy],
        )
    }
}

/// The policies after the first `n` of them have been sampled in full, and the next one, where
/// there is a sample of it, up to its first core that the sample does not cover.
pub open spec fn policies_sampled(
    before: Seq<Info>,
    after: Seq<Info>,
    samples: Seq<ClusterSample>,
    n: nat,
) -> bool {
    &&& after.len() == before.len()
    &&& forall|i: int|
        0 <= i < n ==> sample_taken(
            before[i],
            #[trigger] after[i],
            samples[i].now,
            samples[i].cycles@,
            current_references(samples[i].freqs_khz@),
            Ok(raw_usage(before[i], samples[i])),
        )
    &&& n < before.len() ==> (if n < samples.len() {
        sample_taken(
            before[n as int],
            after[n as int],
            samples[n as int].now,
            samples[n as int].cycles@,
            current_references(samples[n as int].freqs_khz@),
            Err(InfoError::CoreNotInReadings),
        )
    } else {
        after[n as int] == before[n as int]
    })
    &&& forall|i: int| n < i < before.len() ==> #[trigger] after[i] == before[i]
}

/// Why an update stopped at policy `n`.
pub open spec fn stop_reason(samples: Seq<ClusterSample>, n: nat) -> InfoError {
    if n < samples.len() {
        InfoError::CoreNotInReadings
    } else {
        InfoError::SampleUnavailable
    }
}

/// After an update there is a usage of every policy.
pub proof fn lemma_every_policy_cached(
    infos: Seq<Info>,
    samples: Seq<ClusterSample>,
    last: Map<i32, Binary64>,
    smoothing: Binary64,
    cache: Map<i32, Binary64>,
    n: nat,
    i: int,
)
    requires
        0 <= i < n <= infos.len(),
    ensures
        cached(infos, samples, last, smoothing, cache, n).contains_key(infos[i].policy),
        zero_usages(infos, n).contains_key(infos[i].policy),
        zero_usages(infos, n)[infos[i].policy] == integer(0),
    decreases n,
{
    lemma_zero_usages(infos, n, i);
    if i < n - 1 {
        lemma_every_policy_cached(infos, samples, last, smoothing, cache, (n - 1) as nat, i);
    }
}

proof fn lemma_zero_usages(infos: Seq<Info>, n: nat, i: int)
    requires
        0 <= i < n <= infos.len(),
    ensures
        zero_usages(infos, n).contains_key(infos[i].policy),
        zero_usages(infos, n)[infos[i].policy] == integer(0),
    decreases n,
{
    if i < n - 1 {
        lemma_zero_usages(infos, (n - 1) as nat, i);
    }
}

/// The usage of a policy that has not been averaged before is taken as it is.
pub proof fn lemma_first_usage_is_raw(
    last_usage: Map<i32, Binary64>,
    smoothing: Binary64,
    policy: i32,
    raw: Binary64,
)
    requires
        !last_usage.contains_key(policy),
    ensures
        smoothed_usage(last_usage, smoothing, policy, raw) == raw,
{
}

impl WeightedCalculator {
    pub fn new(policys: &[Info]) -> (r: Self)
        ensures
            r.cache@ == zero_usages(policys@, policys@.len()),
            r.freq_calc.last_usage@ == Map::<i32, Binary64>::empty(),
            r.freq_calc.smoothing == ratio(3, 10),
            !r.first_sample_done,
    {
        broadcast use vstd::std_specs::hash::group_hash_axioms;

        let mut cache: HashMap<i32, Binary64> = HashMap::new();
        let mut i: usize = 0;
        while i < policys.len()
            invariant
                i <= policys@.len(),
                cache@ == zero_usages(policys@, i as nat),
            decreases policys@.len() - i,
        {
            cache.insert(policys[i].policy, Binary64::from_u64(0));
            i = i + 1;
        }
        WeightedCalculator {
            cache,
            freq_calc: FrequencyUsageCalculator::new(Binary64::ratio(3, 10)),
            first_sample_done: false,
        }
    }

    /// Brings the usages up to date from one sample of each policy, in turn; `samples` ends
    /// before the first policy that could not be sampled.
    ///
    /// The first update only takes the sample that later ones are measured against.
    pub fn update(
        &mut self,
        infos: &mut [Info],
        samples: &[ClusterSample],
    ) -> (r: Result<&HashMap<i32, Binary64>, InfoError>)
        requires
            samples@.len() <= old(infos)@.len(),
            forall|i: int| 0 <= i < samples@.len() ==> fits(old(infos)@[i], #[trigger] samples@[i]),
        ensures
            r is Ok <==> sampleable(old(infos)@, samples@, old(infos)@.len()),
            exists|n: nat|
                n <= old(infos)@.len() && #[trigger] sampleable(old(infos)@, samples@, n) && (n
                    < old(infos)@.len() ==> !sampleable(old(infos)@, samples@, n + 1) && r == Err::<
                    &HashMap<i32, Binary64>,
                    InfoError,
                >(stop_reason(samples@, n))) && (n == old(infos)@.len() ==> r is Ok)
                    && policies_sampled(old(infos)@, final(infos)@, samples@, n) && (if old(
                    self,
                ).first_sample_done {
                    let last = old(self).freq_calc.last_usage@;
                    let smoothing = old(self).freq_calc.smoothing;
                    &&& final(self).first_sample_done
                    &&& final(self).freq_calc.last_usage@ == averages(
                        old(infos)@,
                        samples@,
                        last,
                        smoothing,
                        n,
                    )
                    &&& final(self).cache@ == cached(
                        old(infos)@,
                        samples@,
                        last,
                        smoothing,
                        old(self).cache@,
                        n,
                    )
                } else {
                    &&& final(self).first_sample_done == (r is Ok)
                    &&& final(self).freq_calc == old(self).freq_calc
                    &&& final(self).cache@ == (if r is Ok {
                        zero_usages(old(infos)@, old(infos)@.len())
                    } else {
                        old(self).cache@
                    })
                }),
            final(self).freq_calc.smoothing == old(self).freq_calc.smoothing,
            r matches Ok(usages) ==> *usages == final(self).cache,
    {
        broadcast use vstd::std_specs::hash::group_hash_axioms;

        let ghost before = infos@;
        let ghost last = self.freq_calc.last_usage@;
        let ghost cache = self.cache@;
        let ghost smoothing = self.freq_calc.smoothing;
        let first = !self.first_sample_done;
        let mut i: usize = 0;
        while i < infos.len()
            invariant
                i <= before.len(),
                infos@.len() == before.len(),
                before == old(infos)@,
                samples@.len() <= before.len(),
                forall|k: int| 0 <= k < samples@.len() ==> fits(before[k], #[trigger] samples@[k]),
                sampleable(before, samples@, i as nat),
                forall|k: int|
                    0 <= k < i ==> sample_taken(
                        before[k],
                        #[trigger] infos@[k],
                        samples@[k].now,
                        samples@[k].cycles@,
                        current_references(samples@[k].freqs_khz@),
                        Ok(raw_usage(before[k], samples@[k])),
                    ),
                forall|k: int| i <= k < before.len() ==> #[trigger] infos@[k] == before[k],
                first == !old(self).first_sample_done,
                last == old(self).freq_calc.last_usage@,
                cache == old(self).cache@,
                smoothing == old(self).freq_calc.smoothing,
                self.freq_calc.smoothing == smoothing,
                self.first_sample_done == old(self).first_sample_done,
                first ==> self.freq_calc == old(self).freq_calc && self.cache@ == cache,
                !first ==> self.freq_calc.last_usage@ == averages(
                    before,
                    samples@,
                    last,
                    smoothing,
                    i as nat,
                ) && self.cache@ == cached(before, samples@, last, smoothing, cache, i as nat),
            decreases before.len() - i,
        {
            if i >= samples.len() {
                assert(policies_sampled(before, infos@, samples@, i as nat));
                return Err(InfoError::SampleUnavailable);
            }
            let sample = &samples[i];
            assert(fits(before[i as int], samples@[i as int]));
            let raw: Binary64 = match infos[i].cluster_usage(
                sample.now,
                &sample.cycles,
                &sample.freqs_khz,
            ) {
                Ok(raw) => raw,
                Err(e) => {
                    assert(!covers(
                        samples@[i as int].cycles@,
                        before[i as int].affected_cpus@,
                        before[i as int].affected_cpus@.len(),
                    ));
                    assert(policies_sampled(before, infos@, samples@, i as nat));
                    return Err(e);
                },
            };
            if !first {
                let policy: i32 = infos[i].policy;
                let smoothed = self.freq_calc.update(policy, raw);
                self.cache.insert(policy, smoothed);
            }
            i = i + 1;
        }
        assert(policies_sampled(before, infos@, samples@, i as nat));
        if first {
            self.first_sample_done = true;
            self.cache.clear();
            let mut k: usize = 0;
            while k < infos.len()
                invariant
                    k <= before.len(),
                    infos@.len() == before.len(),
                    self.cache@ == zero_usages(before, k as nat),
                    self.freq_calc == old(self).freq_calc,
                    self.first_sample_done,
                    forall|j: int| 0 <= j < before.len() ==> (#[trigger] infos@[j]).policy
                        == before[j].policy,
                decreases before.len() - k,
            {
                self.cache.insert(infos[k].policy, Binary64::from_u64(0));
                k = k + 1;
            }
        }
        Ok(&self.cache)
    }

    /// The usage of a policy.
    pub fn get(&self, policy: i32) -> (r: Option<Binary64>)
        ensures
            r == (if self.cache@.contains_key(policy) {
                Some(self.cache@[policy])
            } else {
                None::<Binary64>
            }),
    {
        broadcast use vstd::std_specs::hash::group_hash_axioms;

        match self.cache.get(&policy) {
            Some(usage) => Some(*usage),
            None => None,
        }
    }

    /// Goes back to the state before the first sample: the policies are kept, their usages are
    /// zero again.
    pub fn reset(&mut self)
        ensures
            final(self).cache@.dom() == old(self).cache@.dom(),
            forall|policy: i32| #[trigger]
                final(self).cache@.contains_key(policy) ==> final(self).cache@[policy] == integer(
                    0,
                ),
            final(self).freq_calc.last_usage@ == Map::<i32, Binary64>::empty(),
            final(self).freq_calc.smoothing == old(self).freq_calc.smoothing,
            !final(self).first_sample_done,
    {
        broadcast use vstd::std_specs::hash::group_hash_axioms;

        let ghost keys = spec_keys_iter(&self.cache).remaining().unref();
        let mut zeros: HashMap<i32, Binary64> = HashMap::new();
        for policy in it: self.cache.keys()
            invariant
                it.seq().unref() == keys,
                forall|p: i32| #[trigger]
                    zeros@.contains_key(p) ==> zeros@[p] == integer(0) && keys.contains(p),
                forall|k: int| 0 <= k < it.index() ==> zeros@.contains_key(#[trigger] keys[k]),
        {
            assert(keys[it.index() as int] == *policy);
            zeros.insert(*policy, Binary64::from_u64(0));
        }
        assert(zeros@.dom() == self.cache@.dom()) by {
            assert(keys.to_set() == self.cache@.dom());
            assert forall|p: i32| zeros@.contains_key(p) <==> self.cache@.contains_key(p) by {
                assert(keys.to_set().contains(p) <==> keys.contains(p));
                if keys.contains(p) {
                    let k = choose|k: int| 0 <= k < keys.len() && keys[k] == p;
                    assert(zeros@.contains_key(keys[k]));
                }
            }
        }
        self.cache = zeros;
        self.freq_calc.last_usage.clear();
        self.first_sample_done = false;
    }
}

} // verus!
