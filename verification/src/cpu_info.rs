//! One frequency policy: a cluster of cores that share a clock.

use crate::binary64::{
    at_most, difference, integer, lesser_of, product, quotient, ratio, sum, Binary64, MAX_NANOS,
};
use crate::cpu_cycles_reader::{descriptors, lemma_descriptor_of_core, usage, Cycles, CyclesReader};
use crate::demand::{lemma_held_to_one, lemma_mean_usage_not_negative};
use crate::platform::{is_set, members, room};
use crate::sorting::{ascending, sorted, Sortable};
use crate::text::{
    after_bytes, parse_i32, parse_isize, parse_u64, parse_usize, read_i32, read_isize, read_u64,
    read_usize, skip_bytes, spelled, split_whitespace, trim, trimmed, words,
};
use crate::timing::{elapsed, Moment, MILLISECOND, SECOND};
use nix::sched::CpuSet;
use std::collections::HashMap;
use vstd::prelude::*;

verus! {

/// Why a policy could not be read or acted on.
#[derive(Debug, Clone, Copy, PartialEq, Eq, Structural)]
pub enum InfoError {
    InvalidPolicyFormat,
    PolicyNotANumber,
    FrequencyNotANumber,
    NoFrequencies,
    IgnoreMapNotInitialized,
    PolicyIgnoreFlagNotFound,
    /// A core of the policy has a number that a set of cores has no room for.
    CoreOutOfRange,
    /// The readings hold no counter of a core of the policy.
    CoreNotInReadings,
    /// The policy could not be sampled.
    SampleUnavailable,
}

/// The files that bound a policy's frequency.
#[derive(Debug, Clone, Copy, PartialEq, Eq, Structural)]
pub enum FreqNode {
    MaxFreq,
    MinFreq,
}

/// A frequency, in kHz, to be written to a file of a policy.
#[derive(Debug, Clone, Copy, PartialEq, Eq, Structural)]
pub struct FreqWrite {
    pub node: FreqNode,
    pub freq: isize,
}

/// A frequency outside of the bounds that were expected.
#[derive(Debug, Clone, Copy, PartialEq, Eq, Structural)]
pub struct FreqMismatch {
    pub min_acceptable_freq: isize,
    pub max_acceptable_freq: isize,
    pub current_freq: isize,
}

/// What is to be done to set a frequency: files to write in turn, and a warning.
#[derive(Debug)]
pub struct FreqPlan {
    pub writes: Vec<FreqWrite>,
    pub mismatch: Option<FreqMismatch>,
}

/// One frequency policy.
pub struct Info {
    pub policy: i32,
    pub affected_cpus: Vec<usize>,
    pub cur_fas_freq: isize,
    pub freqs: Vec<isize>,
    pub verify_freq: Option<isize>,
    pub verify_timer: Moment,
    pub cycles_reader: CyclesReader,
    pub last_cycles: Vec<Option<Cycles>>,
    pub last_instant: Moment,
    pub demand_smoothed: Binary64,
    pub last_demand_update: Moment,
}

/// What was read of the counters of one policy, and when.
pub struct LoadSample {
    pub now: Moment,
    pub cycles: HashMap<i32, Cycles>,
}

/// The number of a policy, from the name of its directory: what follows the first six bytes.
pub open spec fn policy_number(file_name: Seq<char>) -> Result<i32, InfoError> {
    match after_bytes(file_name, 6) {
        None => Err(InfoError::InvalidPolicyFormat),
        Some(rest) => match read_i32(rest) {
            None => Err(InfoError::PolicyNotANumber),
            Some(n) => Ok(n),
        },
    }
}

/// The number of a policy, from the name of its directory.
pub fn parse_policy(file_name: &str) -> (r: Result<i32, InfoError>)
    ensures
        r == policy_number(file_name@),
{
    match skip_bytes(file_name, 6) {
        None => Err(InfoError::InvalidPolicyFormat),
        Some(rest) => match parse_i32(&rest) {
            None => Err(InfoError::PolicyNotANumber),
            Some(n) => Ok(n),
        },
    }
}

/// The frequencies listed in a file, where every word is one.
pub fn parse_frequencies(content: &str) -> (r: Result<Vec<isize>, InfoError>)
    ensures
        match r {
            Ok(v) => v@.len() == words(content@).len() && forall|i: int|
                0 <= i < v@.len() ==> read_isize(words(content@)[i]) == Some(#[trigger] v@[i]),
            Err(e) => e == InfoError::FrequencyNotANumber && exists|i: int|
                0 <= i < words(content@).len() && read_isize(#[trigger] words(content@)[i]) is None,
        },
{
    let list = split_whitespace(content);
    let mut v: Vec<isize> = Vec::new();
    let mut i: usize = 0;
    while i < list.len()
        invariant
            i <= list@.len(),
            spelled(list@) == words(content@),
            v@.len() == i,
            forall|k: int|
                0 <= k < i ==> read_isize(words(content@)[k]) == Some(#[trigger] v@[k]),
        decreases list@.len() - i,
    {
        assert(list@[i as int]@ == words(content@)[i as int]);
        match parse_isize(&list[i]) {
            Some(n) => {
                v.push(n);
            },
            None => {
                return Err(InfoError::FrequencyNotANumber);
            },
        }
        i = i + 1;
    }
    Ok(v)
}

/// The cores listed in a file, where every word is one.
pub fn parse_cores(content: &str) -> (r: Option<Vec<usize>>)
    ensures
        match r {
            Some(v) => v@.len() == words(content@).len() && forall|i: int|
                0 <= i < v@.len() ==> read_usize(words(content@)[i]) == Some(#[trigger] v@[i]),
            None => exists|i: int|
                0 <= i < words(content@).len() && read_usize(#[trigger] words(content@)[i]) is None,
        },
{
    let list = split_whitespace(content);
    let mut v: Vec<usize> = Vec::new();
    let mut i: usize = 0;
    while i < list.len()
        invariant
            i <= list@.len(),
            spelled(list@) == words(content@),
            v@.len() == i,
            forall|k: int|
                0 <= k < i ==> read_usize(words(content@)[k]) == Some(#[trigger] v@[k]),
        decreases list@.len() - i,
    {
        assert(list@[i as int]@ == words(content@)[i as int]);
        match parse_usize(&list[i]) {
            Some(n) => {
                v.push(n);
            },
            None => {
                return None;
            },
        }
        i = i + 1;
    }
    Some(v)
}

/// How many of the first frequencies are at most `limit`.
pub open spec fn leading_at_most(freqs: Seq<isize>, limit: isize) -> nat
    decreases freqs.len(),
{
    if freqs.len() > 0 && freqs[0] <= limit {
        1 + leading_at_most(freqs.drop_first(), limit)
    } else {
        0
    }
}

/// How many of the first frequencies are below `limit`.
pub open spec fn leading_below(freqs: Seq<isize>, limit: isize) -> nat
    decreases freqs.len(),
{
    if freqs.len() > 0 && freqs[0] < limit {
        1 + leading_below(freqs.drop_first(), limit)
    } else {
        0
    }
}

/// The last of the first frequencies that are at most `freq`; `freq` itself where none is.
pub open spec fn min_acceptable(freqs: Seq<isize>, freq: isize) -> isize {
    let n = leading_at_most(freqs, freq);
    if n > 0 {
        freqs[n - 1]
    } else {
        freq
    }
}

/// The first frequency that is at least `freq`; `freq` itself where none is.
pub open spec fn max_acceptable(freqs: Seq<isize>, freq: isize) -> isize {
    let n = leading_below(freqs, freq);
    if n < freqs.len() {
        freqs[n as int]
    } else {
        freq
    }
}

/// Whether one of the cores is in the set; nothing where the search comes first to a core
/// that the set has no room for.
pub open spec fn any_core_set(cpus: Seq<usize>, set: CpuSet) -> Option<bool>
    decreases cpus.len(),
{
    if cpus.len() == 0 {
        Some(false)
    } else if cpus[0] >= room(set) {
        None
    } else if members(set).contains(cpus[0]) {
        Some(true)
    } else {
        any_core_set(cpus.drop_first(), set)
    }
}

/// Whether writes to a policy are to be left out.
pub open spec fn write_ignored(
    policy: i32,
    ignore_map: Option<&HashMap<i32, bool>>,
) -> Result<bool, InfoError> {
    match ignore_map {
        None => Err(InfoError::IgnoreMapNotInitialized),
        Some(map) => if map@.contains_key(policy) {
            Ok(map@[policy])
        } else {
            Err(InfoError::PolicyIgnoreFlagNotFound)
        },
    }
}

/// `freq` held between the first and the last frequency.
pub open spec fn held_to(freqs: Seq<isize>, freq: isize) -> isize {
    if freq < freqs.first() {
        freqs.first()
    } else if freq > freqs.last() {
        freqs.last()
    } else {
        freq
    }
}

/// The files to write, in turn, to set a policy to `freq`. A policy that runs top used cores
/// is pinned to the frequency; another one is only kept from going above it.
pub open spec fn freq_writes(critical: bool, freq: isize, lowest: isize) -> Seq<FreqWrite> {
    if critical {
        seq![
            FreqWrite { node: FreqNode::MaxFreq, freq },
            FreqWrite { node: FreqNode::MinFreq, freq },
        ]
    } else {
        seq![
            FreqWrite { node: FreqNode::MinFreq, freq: lowest },
            FreqWrite { node: FreqNode::MaxFreq, freq },
        ]
    }
}

/// The readings cover the first `n` cores.
pub open spec fn covers(cycles: Map<i32, Cycles>, cpus: Seq<usize>, n: nat) -> bool {
    forall|i: int| 0 <= i < n ==> #[trigger] cycles.contains_key(cpus[i] as i32)
}

/// The counters after the first `n` cores have been sampled.
pub open spec fn baselines(
    last: Seq<Option<Cycles>>,
    cpus: Seq<usize>,
    cycles: Map<i32, Cycles>,
    n: nat,
) -> Seq<Option<Cycles>> {
    Seq::new(
        last.len(),
        |i: int|
            if i < n {
                Some(cycles[cpus[i] as i32])
            } else {
                last[i]
            },
    )
}

/// How many of the first `n` cores were sampled before.
pub open spec fn sampled(last: Seq<Option<Cycles>>, n: nat) -> nat
    decreases n,
{
    if n == 0 {
        0
    } else {
        sampled(last, (n - 1) as nat) + (if last[n - 1] is Some {
            1nat
        } else {
            0
        })
    }
}

/// The cycles that a core ran through since it was sampled before.
pub open spec fn cycles_since(last: Cycles, now: Cycles) -> u64 {
    if now.0 < last.0 {
        0
    } else {
        (now.0 - last.0) as u64
    }
}

/// The usage of those of the first `n` cores that were sampled before, added up in turn.
pub open spec fn total_usage(
    last: Seq<Option<Cycles>>,
    cpus: Seq<usize>,
    cycles: Map<i32, Cycles>,
    references: Seq<Cycles>,
    span: nat,
    n: nat,
) -> Binary64
    decreases n,
{
    if n == 0 {
        integer(0)
    } else {
        let before = total_usage(last, cpus, cycles, references, span, (n - 1) as nat);
        match last[n - 1] {
            Some(then) => sum(
                before,
                usage(
                    cycles_since(then, cycles[cpus[n - 1] as i32]),
                    span,
                    references[n - 1].0,
                ),
            ),
            None => before,
        }
    }
}

/// The average usage of the cores that were sampled before; zero where none was.
pub open spec fn mean_usage(
    last: Seq<Option<Cycles>>,
    cpus: Seq<usize>,
    cycles: Map<i32, Cycles>,
    references: Seq<Cycles>,
    span: nat,
) -> Binary64 {
    let count = sampled(last, cpus.len());
    if count == 0 {
        integer(0)
    } else {
        quotient(
            total_usage(last, cpus, cycles, references, span, cpus.len()),
            integer(count as int),
        )
    }
}

impl Info {
    /// The frequencies ascend, and there is a counter for each core.
    pub open spec fn wf(self) -> bool {
        &&& ascending(self.freqs@)
        &&& self.last_cycles@.len() == self.affected_cpus@.len()
    }

    /// A policy that runs at its highest frequency and has not been sampled yet.
    pub fn new(
        policy: i32,
        freqs: Vec<isize>,
        affected_cpus: Vec<usize>,
        reader: CyclesReader,
        now: Moment,
    ) -> (r: Result<Self, InfoError>)
        ensures
            match r {
                Ok(info) => {
                    &&& freqs@.len() > 0
                    &&& info.wf()
                    &&& info.policy == policy
                    &&& info.affected_cpus == affected_cpus
                    &&& info.freqs@.to_multiset() == freqs@.to_multiset()
                    &&& info.freqs@.len() == freqs@.len()
                    &&& info.cur_fas_freq == info.freqs@.last()
                    &&& info.verify_freq is None
                    &&& info.verify_timer == now
                    &&& info.cycles_reader == reader
                    &&& forall|i: int|
                        0 <= i < info.last_cycles@.len() ==> info.last_cycles@[i] is None
                    &&& info.last_instant == now
                    &&& info.demand_smoothed == integer(0)
                    &&& info.last_demand_update == now
                },
                Err(e) => freqs@.len() == 0 && e == InfoError::NoFrequencies,
            },
    {
        let freqs = sorted(&freqs);
        if freqs.len() == 0 {
            return Err(InfoError::NoFrequencies);
        }
        let last_cycles = no_baselines(affected_cpus.len());
        Ok(
            Info {
                policy,
                affected_cpus,
                cur_fas_freq: freqs[freqs.len() - 1],
                freqs,
                verify_freq: None,
                verify_timer: now,
                cycles_reader: reader,
                last_cycles,
                last_instant: now,
                demand_smoothed: Binary64::from_u64(0),
                last_demand_update: now,
            },
        )
    }

    /// Whether the frequency that was written last is to be compared with the one that the
    /// policy runs at.
    pub open spec fn verification_due(self, now: Moment) -> bool {
        elapsed(self.verify_timer, now) >= 3 * SECOND && self.verify_freq is Some
    }

    /// The warning that a comparison gives.
    pub open spec fn mismatch(self, now: Moment, current_freq: isize) -> Option<FreqMismatch> {
        if self.verification_due(now) {
            let low = min_acceptable(self.freqs@, self.verify_freq->0);
            let high = max_acceptable(self.freqs@, self.verify_freq->0);
            if low <= current_freq <= high {
                None
            } else {
                Some(
                    FreqMismatch {
                        min_acceptable_freq: low,
                        max_acceptable_freq: high,
                        current_freq,
                    },
                )
            }
        } else {
            None
        }
    }

    /// Remembers the frequency that is being written. Every three seconds, compares the one
    /// written before with the frequency that the policy runs at, which is then needed.
    fn verify_freq(
        &mut self,
        write_freq: isize,
        now: Moment,
        current_freq: Option<isize>,
    ) -> (r: Option<FreqMismatch>)
        requires
            old(self).verification_due(now) ==> current_freq is Some,
        ensures
            r == old(self).mismatch(now, current_freq->0),
            *final(self) == (Info {
                verify_freq: Some(write_freq),
                verify_timer: if elapsed(old(self).verify_timer, now) >= 3 * SECOND {
                    now
                } else {
                    old(self).verify_timer
                },
                ..*old(self)
            }),
    {
        let mut r: Option<FreqMismatch> = None;
        if self.verify_timer.elapsed(now) >= 3 * SECOND {
            self.verify_timer = now;
            if let Some(verify_freq) = self.verify_freq {
                let current_freq: isize = current_freq.unwrap();
                let n: usize = count_leading_at_most(&self.freqs, verify_freq);
                let min_acceptable_freq: isize = if n > 0 {
                    self.freqs[n - 1]
                } else {
                    verify_freq
                };
                let m: usize = count_leading_below(&self.freqs, verify_freq);
                let max_acceptable_freq: isize = if m < self.freqs.len() {
                    self.freqs[m]
                } else {
                    verify_freq
                };
                if !(min_acceptable_freq <= current_freq && current_freq <= max_acceptable_freq) {
                    r =
                    Some(FreqMismatch { min_acceptable_freq, max_acceptable_freq, current_freq });
                }
            }
        }
        self.verify_freq = Some(write_freq);
        r
    }

    /// Whether writes to this policy are to be left out.
    fn ignore_write(&self, ignore_map: Option<&HashMap<i32, bool>>) -> (r: Result<bool, InfoError>)
        ensures
            r == write_ignored(self.policy, ignore_map),
    {
        broadcast use vstd::std_specs::hash::group_hash_axioms;

        match ignore_map {
            None => Err(InfoError::IgnoreMapNotInitialized),
            Some(map) => match map.get(&self.policy) {
                Some(flag) => Ok(*flag),
                None => Err(InfoError::PolicyIgnoreFlagNotFound),
            },
        }
    }

    /// Whether one of the top used cores is of this policy.
    fn critical_policy(&self, top_used_cores: CpuSet) -> (r: Option<bool>)
        ensures
            r == any_core_set(self.affected_cpus@, top_used_cores),
    {
        let ghost cpus = self.affected_cpus@;
        let mut i: usize = 0;
        assert(cpus.skip(0) == cpus);
        while i < self.affected_cpus.len()
            invariant
                cpus == self.affected_cpus@,
                i <= cpus.len(),
                any_core_set(cpus, top_used_cores) == any_core_set(
                    cpus.skip(i as int),
                    top_used_cores,
                ),
            decreases cpus.len() - i,
        {
            assert(cpus.skip(i as int).drop_first() == cpus.skip(i + 1));
            match is_set(&top_used_cores, self.affected_cpus[i]) {
                Some(true) => {
                    return Some(true);
                },
                Some(false) => {},
                None => {
                    return None;
                },
            }
            i = i + 1;
        }
        Some(false)
    }

    /// Whether setting a frequency needs the one that the policy runs at.
    pub fn needs_current_freq(
        &self,
        top_used_cores: CpuSet,
        ignore_map: Option<&HashMap<i32, bool>>,
        now: Moment,
    ) -> (r: bool)
        ensures
            r == (write_ignored(self.policy, ignore_map) == Ok::<bool, InfoError>(false)
                && any_core_set(self.affected_cpus@, top_used_cores) == Some(true)
                && self.verification_due(now)),
    {
        if let Ok(false) = self.ignore_write(ignore_map) {
            if let Some(true) = self.critical_policy(top_used_cores) {
                return self.verify_timer.elapsed(now) >= 3 * SECOND && self.verify_freq.is_some();
            }
        }
        false
    }

    /// Sets the frequency of the policy, held to the frequencies that it has.
    ///
    /// Hands back the files to write, unless writes are to be left out.
    pub fn write_freq(
        &mut self,
        top_used_cores: CpuSet,
        freq: isize,
        ignore_map: Option<&HashMap<i32, bool>>,
        now: Moment,
        current_freq: Option<isize>,
    ) -> (r: Result<FreqPlan, InfoError>)
        requires
            old(self).wf(),
            old(self).verification_due(now) && any_core_set(
                old(self).affected_cpus@,
                top_used_cores,
            ) == Some(true) && write_ignored(old(self).policy, ignore_map) == Ok::<
                bool,
                InfoError,
            >(false) ==> current_freq is Some,
        ensures
            final(self).wf(),
            ({
                let before = *old(self);
                let freqs = before.freqs@;
                let adjusted = held_to(freqs, freq);
                let ignored = write_ignored(before.policy, ignore_map);
                let critical = any_core_set(before.affected_cpus@, top_used_cores);
                let set = Info { cur_fas_freq: adjusted, ..before };
                if freqs.len() == 0 {
                    r == Err::<FreqPlan, InfoError>(InfoError::NoFrequencies) && *final(self)
                        == before
                } else if ignored is Err {
                    r == Err::<FreqPlan, InfoError>(ignored->Err_0) && *final(self) == set
                } else if ignored->Ok_0 {
                    &&& r matches Ok(plan) && plan.writes@.len() == 0 && plan.mismatch is None
                    &&& *final(self) == set
                } else if critical is None {
                    r == Err::<FreqPlan, InfoError>(InfoError::CoreOutOfRange) && *final(self)
                        == set
                } else if critical->0 {
                    &&& r matches Ok(plan) && plan.writes@ == freq_writes(
                        true,
                        adjusted,
                        freqs.first(),
                    ) && plan.mismatch == before.mismatch(now, current_freq->0)
                    &&& *final(self) == (Info {
                        verify_freq: Some(adjusted),
                        verify_timer: if elapsed(before.verify_timer, now) >= 3 * SECOND {
                            now
                        } else {
                            before.verify_timer
                        },
                        ..set
                    })
                } else {
                    &&& r matches Ok(plan) && plan.writes@ == freq_writes(
                        false,
                        adjusted,
                        freqs.first(),
                    ) && plan.mismatch is None
                    &&& *final(self) == set
                }
            }),
    {
        let n: usize = self.freqs.len();
        if n == 0 {
            return Err(InfoError::NoFrequencies);
        }
        let min_freq: isize = self.freqs[0];
        let max_freq: isize = self.freqs[n - 1];
        assert(self.freqs@[0].value() <= self.freqs@[n - 1].value());
        let adjusted_freq: isize = if freq < min_freq {
            min_freq
        } else if freq > max_freq {
            max_freq
        } else {
            freq
        };
        self.cur_fas_freq = adjusted_freq;

        let mut writes: Vec<FreqWrite> = Vec::new();
        match self.ignore_write(ignore_map) {
            Err(e) => {
                return Err(e);
            },
            Ok(true) => {
                return Ok(FreqPlan { writes, mismatch: None });
            },
            Ok(false) => {},
        }
        match self.critical_policy(top_used_cores) {
            None => Err(InfoError::CoreOutOfRange),
            Some(true) => {
                let mismatch = self.verify_freq(adjusted_freq, now, current_freq);
                writes.push(FreqWrite { node: FreqNode::MaxFreq, freq: adjusted_freq });
                writes.push(FreqWrite { node: FreqNode::MinFreq, freq: adjusted_freq });
                Ok(FreqPlan { writes, mismatch })
            },
            Some(false) => {
                writes.push(FreqWrite { node: FreqNode::MinFreq, freq: min_freq });
                writes.push(FreqWrite { node: FreqNode::MaxFreq, freq: adjusted_freq });
                Ok(FreqPlan { writes, mismatch: None })
            },
        }
    }

    /// Gives the policy back all of its frequencies. Hands back the files to write; once they
    /// are written, sampling is to be restarted.
    pub fn reset(&mut self) -> (r: Result<Vec<FreqWrite>, InfoError>)
        ensures
            ({
                let freqs = old(self).freqs@;
                if freqs.len() == 0 {
                    r == Err::<Vec<FreqWrite>, InfoError>(InfoError::NoFrequencies) && *final(self)
                        == *old(self)
                } else {
                    &&& r matches Ok(writes) && writes@ == seq![
                        FreqWrite { node: FreqNode::MaxFreq, freq: freqs.last() },
                        FreqWrite { node: FreqNode::MinFreq, freq: freqs.first() },
                    ]
                    &&& *final(self) == (Info { verify_freq: None, ..*old(self) })
                }
            }),
    {
        let n: usize = self.freqs.len();
        if n == 0 {
            return Err(InfoError::NoFrequencies);
        }
        self.verify_freq = None;
        let mut writes: Vec<FreqWrite> = Vec::new();
        writes.push(FreqWrite { node: FreqNode::MaxFreq, freq: self.freqs[n - 1] });
        writes.push(FreqWrite { node: FreqNode::MinFreq, freq: self.freqs[0] });
        Ok(writes)
    }

    /// Forgets the samples taken so far.
    pub fn restart_sampling(&mut self, now: Moment)
        ensures
            final(self).last_cycles@.len() == old(self).affected_cpus@.len(),
            forall|i: int|
                0 <= i < final(self).last_cycles@.len() ==> final(self).last_cycles@[i] is None,
            *final(self) == (Info {
                last_cycles: final(self).last_cycles,
                last_instant: now,
                demand_smoothed: integer(0),
                last_demand_update: now,
                ..*old(self)
            }),
    {
        self.last_cycles = no_baselines(self.affected_cpus.len());
        self.last_instant = now;
        self.demand_smoothed = Binary64::from_u64(0);
        self.last_demand_update = now;
    }

    /// The highest frequency of the cluster, in kHz; zero where it has none.
    pub fn max_freq(&self) -> (r: isize)
        ensures
            r == (if self.freqs@.len() > 0 {
                self.freqs@.last()
            } else {
                0
            }),
    {
        let n: usize = self.freqs.len();
        if n > 0 {
            self.freqs[n - 1]
        } else {
            0
        }
    }

    /// Takes a sample: the average usage of the cores against these references since the
    /// sample before.
    fn sample(
        &mut self,
        now: Moment,
        cycles: &HashMap<i32, Cycles>,
        references: &Vec<Cycles>,
    ) -> (r: Result<Binary64, InfoError>)
        requires
            old(self).wf(),
            references@.len() == old(self).affected_cpus@.len(),
            elapsed(old(self).last_instant, now) <= MAX_NANOS,
        ensures
            final(self).wf(),
            sample_taken(*old(self), *final(self), now, cycles@, references@, r),
            r matches Ok(value) ==> at_most(integer(0), value),
    {
        broadcast use vstd::std_specs::hash::group_hash_axioms;

        let duration: u128 = self.last_instant.elapsed(now);
        let ghost last = self.last_cycles@;
        let ghost cpus = self.affected_cpus@;
        let mut total = Binary64::from_u64(0);
        let mut valid_count: usize = 0;
        let mut i: usize = 0;
        assert(self.last_cycles@ == baselines(last, cpus, cycles@, 0));
        while i < self.affected_cpus.len()
            invariant
                i <= cpus.len(),
                cpus == old(self).affected_cpus@,
                last == old(self).last_cycles@,
                last.len() == cpus.len(),
                references@.len() == cpus.len(),
                duration == elapsed(old(self).last_instant, now),
                duration <= MAX_NANOS,
                old(self).wf(),
                self.last_cycles@ == baselines(last, cpus, cycles@, i as nat),
                *self == (Info { last_cycles: self.last_cycles, ..*old(self) }),
                covers(cycles@, cpus, i as nat),
                total == total_usage(last, cpus, cycles@, references@, duration as nat, i as nat),
                valid_count == sampled(last, i as nat),
                valid_count <= i,
            decreases cpus.len() - i,
        {
            let cpu_id: usize = self.affected_cpus[i];
            let now_cycles: Cycles = match cycles.get(
                &#[verifier::truncate]
                (cpu_id as i32),
            ) {
                Some(c) => *c,
                None => {
                    return Err(InfoError::CoreNotInReadings);
                },
            };
            assert(self.last_cycles@[i as int] == last[i as int]);
            if let Some(then) = self.last_cycles[i] {
                let diff = now_cycles - then;
                total = total.add(diff.as_usage(duration, references[i]));
                valid_count = valid_count + 1;
            }
            self.last_cycles.set(i, Some(now_cycles));
            i = i + 1;
            assert(self.last_cycles@ == baselines(last, cpus, cycles@, i as nat));
        }
        proof {
            lemma_mean_usage_not_negative(last, cpus, cycles@, references@, duration as nat);
        }
        self.last_instant = now;
        if valid_count == 0 {
            return Ok(Binary64::from_u64(0));
        }
        Ok(total.div(Binary64::from_u64(valid_count as u64)))
    }

    /// The average usage of the cores against the frequencies that they run at, in kHz, since
    /// the sample before.
    ///
    /// A lower frequency makes for a higher usage, so it says little on whether the frequency
    /// could be lowered.
    pub fn cluster_usage(
        &mut self,
        now: Moment,
        cycles: &HashMap<i32, Cycles>,
        freqs_khz: &Vec<u64>,
    ) -> (r: Result<Binary64, InfoError>)
        requires
            old(self).wf(),
            freqs_khz@.len() == old(self).affected_cpus@.len(),
            elapsed(old(self).last_instant, now) <= MAX_NANOS,
        ensures
            final(self).wf(),
            sample_taken(
                *old(self),
                *final(self),
                now,
                cycles@,
                current_references(freqs_khz@),
                r,
            ),
            r matches Ok(value) ==> at_most(integer(0), value),
    {
        let mut references: Vec<Cycles> = Vec::new();
        let mut i: usize = 0;
        while i < freqs_khz.len()
            invariant
                i <= freqs_khz@.len(),
                references@ == current_references(freqs_khz@).take(i as int),
            decreases freqs_khz@.len() - i,
        {
            references.push(Cycles::from_khz(freqs_khz[i]));
            i = i + 1;
        }
        assert(references@ == current_references(freqs_khz@));
        self.sample(now, cycles, &references)
    }

    /// The average share of their highest frequency that the cores needed since the sample
    /// before.
    ///
    /// It tells of the load alone, whatever frequency the cores run at.
    pub fn load_demand_rate(
        &mut self,
        now: Moment,
        cycles: &HashMap<i32, Cycles>,
    ) -> (r: Result<Binary64, InfoError>)
        requires
            old(self).wf(),
            elapsed(old(self).last_instant, now) <= MAX_NANOS,
        ensures
            final(self).wf(),
            sample_taken(
                *old(self),
                *final(self),
                now,
                cycles@,
                old(self).highest_references(),
                r,
            ),
            r matches Ok(value) ==> at_most(integer(0), value),
    {
        let max_freq: isize = self.max_freq();
        let max_freq_khz: u64 = if max_freq > 0 {
            max_freq as u64
        } else {
            0
        };
        let mut references: Vec<Cycles> = Vec::new();
        let mut i: usize = 0;
        while i < self.affected_cpus.len()
            invariant
                i <= self.affected_cpus@.len(),
                *self == *old(self),
                self.highest_references() == Seq::new(
                    self.affected_cpus@.len(),
                    |k: int| Cycles(max_freq_khz),
                ),
                references@ == self.highest_references().take(i as int),
            decreases self.affected_cpus@.len() - i,
        {
            references.push(Cycles::from_khz(max_freq_khz));
            i = i + 1;
        }
        assert(references@ == self.highest_references());
        self.sample(now, cycles, &references)
    }

    /// The load demand rate as a moving average, which starts anew after a pause of more than
    /// a tenth of a second.
    pub fn load_demand_rate_smoothed(
        &mut self,
        now: Moment,
        cycles: &HashMap<i32, Cycles>,
    ) -> (r: Result<Binary64, InfoError>)
        requires
            old(self).wf(),
            elapsed(old(self).last_instant, now) <= MAX_NANOS,
        ensures
            final(self).wf(),
            r is Ok <==> covers(cycles@, old(self).affected_cpus@, old(self).affected_cpus@.len()),
            match r {
                Ok(value) => {
                    let raw = old(self).usage_against(old(self).highest_references(), now, cycles@);
                    &&& value == old(self).smoothed(raw, now)
                    &&& final(self).last_cycles@ == baselines(
                        old(self).last_cycles@,
                        old(self).affected_cpus@,
                        cycles@,
                        old(self).affected_cpus@.len(),
                    )
                    &&& *final(self) == (Info {
                        last_cycles: final(self).last_cycles,
                        last_instant: now,
                        demand_smoothed: value,
                        last_demand_update: now,
                        ..*old(self)
                    })
                },
                Err(_) => sample_taken(
                    *old(self),
                    *final(self),
                    now,
                    cycles@,
                    old(self).highest_references(),
                    r,
                ),
            },
    {
        let raw: Binary64 = match self.load_demand_rate(now, cycles) {
            Ok(raw) => raw,
            Err(e) => {
                return Err(e);
            },
        };
        if self.last_demand_update.elapsed(now) > 100 * MILLISECOND {
            self.demand_smoothed = raw;
        } else {
            let alpha = Binary64::ratio(1, 4);
            let rest = Binary64::from_u64(1).sub(alpha);
            self.demand_smoothed = alpha.mul(raw).add(rest.mul(self.demand_smoothed));
        }
        self.last_demand_update = now;
        Ok(self.demand_smoothed)
    }

    /// The cluster usage, held to at most one.
    pub fn cpu_usage(
        &mut self,
        now: Moment,
        cycles: &HashMap<i32, Cycles>,
        freqs_khz: &Vec<u64>,
    ) -> (r: Result<Binary64, InfoError>)
        requires
            old(self).wf(),
            freqs_khz@.len() == old(self).affected_cpus@.len(),
            elapsed(old(self).last_instant, now) <= MAX_NANOS,
        ensures
            final(self).wf(),
            ({
                let references = current_references(freqs_khz@);
                let usage = old(self).usage_against(references, now, cycles@);
                &&& sample_taken(
                    *old(self),
                    *final(self),
                    now,
                    cycles@,
                    references,
                    match r {
                        Ok(_) => Ok(usage),
                        Err(e) => Err(e),
                    },
                )
                &&& r matches Ok(value) ==> value == lesser_of(usage, integer(1)) && at_most(
                    integer(0),
                    value,
                ) && at_most(value, integer(1))
            }),
    {
        match self.cluster_usage(now, cycles, freqs_khz) {
            Ok(usage) => {
                proof {
                    lemma_held_to_one(usage);
                }
                Ok(usage.min(Binary64::from_u64(1)))
            },
            Err(e) => Err(e),
        }
    }

    /// Takes the first sample, which only later ones are measured against.
    pub fn init_sample(
        &mut self,
        now: Moment,
        cycles: &HashMap<i32, Cycles>,
        freqs_khz: &Vec<u64>,
    ) -> (r: Result<(), InfoError>)
        requires
            old(self).wf(),
            freqs_khz@.len() == old(self).affected_cpus@.len(),
            elapsed(old(self).last_instant, now) <= MAX_NANOS,
        ensures
            final(self).wf(),
            ({
                let references = current_references(freqs_khz@);
                sample_taken(
                    *old(self),
                    *final(self),
                    now,
                    cycles@,
                    references,
                    match r {
                        Ok(_) => Ok(old(self).usage_against(references, now, cycles@)),
                        Err(e) => Err(e),
                    },
                )
            }),
    {
        match self.cluster_usage(now, cycles, freqs_khz) {
            Ok(_) => Ok(()),
            Err(e) => Err(e),
        }
    }

    /// Does nothing: every sample brings the readings up to date itself.
    pub fn refresh_usage(&mut self)
        ensures
            *final(self) == *old(self),
    {
    }

    pub fn cur_freq(&self) -> (r: isize)
        ensures
            r == self.cur_fas_freq,
    {
        self.cur_fas_freq
    }

    pub fn set_cur_freq(&mut self, freq: isize)
        ensures
            *final(self) == (Info { cur_fas_freq: freq, ..*old(self) }),
    {
        self.cur_fas_freq = freq;
    }

    pub fn affected_cpus(&self) -> (r: &[usize])
        ensures
            r@ == self.affected_cpus@,
    {
        self.affected_cpus.as_slice()
    }

    /// The average usage of the cores against these references since the sample before.
    pub open spec fn usage_against(
        self,
        references: Seq<Cycles>,
        now: Moment,
        cycles: Map<i32, Cycles>,
    ) -> Binary64 {
        mean_usage(
            self.last_cycles@,
            self.affected_cpus@,
            cycles,
            references,
            elapsed(self.last_instant, now),
        )
    }

    /// The highest frequency of the cluster as the reference of each of its cores.
    pub open spec fn highest_references(self) -> Seq<Cycles> {
        let highest: isize = if self.freqs@.len() > 0 {
            self.freqs@.last()
        } else {
            0
        };
        Seq::new(
            self.affected_cpus@.len(),
            |i: int|
                Cycles(
                    if highest > 0 {
                        highest as u64
                    } else {
                        0
                    },
                ),
        )
    }

    /// The moving average after a demand of `raw`.
    pub open spec fn smoothed(self, raw: Binary64, now: Moment) -> Binary64 {
        if elapsed(self.last_demand_update, now) > 100 * MILLISECOND {
            raw
        } else {
            sum(
                product(ema_alpha(), raw),
                product(difference(integer(1), ema_alpha()), self.demand_smoothed),
            )
        }
    }

    /// The frequency that a policy runs at, in kHz, from the file that tells it.
    pub fn read_freq(content: &str) -> (r: Option<isize>)
        ensures
            r == read_isize(trimmed(content@)),
    {
        parse_isize(&trim(content))
    }

    /// The frequency that a core runs at, in kHz, from the file that tells it.
    pub fn read_freq_khz(content: &str) -> (r: Option<u64>)
        ensures
            r == read_u64(trimmed(content@)),
    {
        parse_u64(&trim(content))
    }
}

/// The weight of a new demand in the moving average.
pub open spec fn ema_alpha() -> Binary64 {
    ratio(1, 4)
}

/// The frequencies that the cores run at as their references.
pub open spec fn current_references(freqs_khz: Seq<u64>) -> Seq<Cycles> {
    Seq::new(freqs_khz.len(), |i: int| Cycles(freqs_khz[i]))
}

/// What taking a sample does: where the readings cover all cores, their average usage is
/// returned and the readings are kept; otherwise those before the first missing core are kept.
pub open spec fn sample_taken(
    before: Info,
    after: Info,
    now: Moment,
    cycles: Map<i32, Cycles>,
    references: Seq<Cycles>,
    r: Result<Binary64, InfoError>,
) -> bool {
    let cpus = before.affected_cpus@;
    let last = before.last_cycles@;
    match r {
        Ok(usage) => {
            &&& covers(cycles, cpus, cpus.len())
            &&& usage == before.usage_against(references, now, cycles)
            &&& after.last_cycles@ == baselines(last, cpus, cycles, cpus.len())
            &&& after == (Info { last_cycles: after.last_cycles, last_instant: now, ..before })
        },
        Err(e) => {
            &&& e == InfoError::CoreNotInReadings
            &&& exists|n: nat|
                n < cpus.len() && #[trigger] covers(cycles, cpus, n) && !cycles.contains_key(
                    cpus[n as int] as i32,
                ) && after.last_cycles@ == baselines(last, cpus, cycles, n)
            &&& after == (Info { last_cycles: after.last_cycles, ..before })
        },
    }
}

/// A sample can be taken of a policy: the time since the sample before is a span.
pub open spec fn demand_fits(info: Info, sample: Option<LoadSample>) -> bool {
    info.wf() && (sample matches Some(s) ==> elapsed(info.last_instant, s.now) <= MAX_NANOS)
}

/// The load demand rate of a policy that a sample shows: the average usage of its cores against
/// its highest frequency. There is none where the policy could not be read, or the sample does
/// not cover its cores.
pub open spec fn demand_shown(info: Info, sample: Option<LoadSample>) -> Option<Binary64> {
    match sample {
        Some(s) => if covers(s.cycles@, info.affected_cpus@, info.affected_cpus@.len()) {
            Some(info.usage_against(info.highest_references(), s.now, s.cycles@))
        } else {
            None
        },
        None => None,
    }
}

/// The load demand rates that the samples of the first `n` policies show.
pub open spec fn demands_shown(
    infos: Seq<Info>,
    samples: Seq<Option<LoadSample>>,
    n: nat,
) -> Seq<Binary64>
    decreases n,
{
    if n == 0 {
        Seq::empty()
    } else {
        let before = demands_shown(infos, samples, (n - 1) as nat);
        match demand_shown(infos[n - 1], samples[n - 1]) {
            Some(demand) => before.push(demand),
            None => before,
        }
    }
}

/// What taking a sample of the load does to a policy.
pub open spec fn load_sampled(before: Info, after: Info, sample: Option<LoadSample>) -> bool {
    match sample {
        Some(s) => sample_taken(
            before,
            after,
            s.now,
            s.cycles@,
            before.highest_references(),
            match demand_shown(before, sample) {
                Some(demand) => Ok(demand),
                None => Err(InfoError::CoreNotInReadings),
            },
        ),
        None => after == before,
    }
}

/// Takes a sample of the load of each policy, and gives their load demand rates, in turn.
/// Policies that could not be sampled are left out.
pub fn load_demands(infos: &mut [Info], samples: &[Option<LoadSample>]) -> (r: Vec<Binary64>)
    requires
        samples@.len() == old(infos)@.len(),
        forall|i: int|
            0 <= i < samples@.len() ==> demand_fits(old(infos)@[i], #[trigger] samples@[i]),
    ensures
        r@ == demands_shown(old(infos)@, samples@, samples@.len()),
        final(infos)@.len() == old(infos)@.len(),
        forall|i: int|
            0 <= i < samples@.len() ==> load_sampled(
                old(infos)@[i],
                #[trigger] final(infos)@[i],
                samples@[i],
            ),
{
    let ghost before = infos@;
    let mut demands: Vec<Binary64> = Vec::new();
    let mut i: usize = 0;
    while i < samples.len()
        invariant
            i <= samples@.len() == before.len() == infos@.len(),
            before == old(infos)@,
            forall|k: int|
                0 <= k < samples@.len() ==> demand_fits(before[k], #[trigger] samples@[k]),
            demands@ == demands_shown(before, samples@, i as nat),
            forall|k: int|
                0 <= k < i ==> load_sampled(before[k], #[trigger] infos@[k], samples@[k]),
            forall|k: int| i <= k < before.len() ==> #[trigger] infos@[k] == before[k],
        decreases samples@.len() - i,
    {
        assert(demand_fits(before[i as int], samples@[i as int]));
        if let Some(sample) = &samples[i] {
            if let Ok(demand) = infos[i].load_demand_rate(sample.now, &sample.cycles) {
                demands.push(demand);
            }
        }
        i = i + 1;
    }
    demands
}

/// A frequency that a policy is set to lies between its lowest and its highest one, and one
/// that lies there already is kept.
pub proof fn lemma_held_to_range(freqs: Seq<isize>, freq: isize)
    requires
        ascending(freqs),
        freqs.len() > 0,
    ensures
        freqs.first() <= held_to(freqs, freq) <= freqs.last(),
        freqs.first() <= freq <= freqs.last() ==> held_to(freqs, freq) == freq,
        held_to(freqs, held_to(freqs, freq)) == held_to(freqs, freq),
{
    assert(freqs[0].value() <= freqs[freqs.len() - 1].value());
}

/// The frequencies that are acceptable after one has been written are bounded by its
/// neighbours among those of the policy, the frequency itself where the policy has it.
pub proof fn lemma_acceptable_are_neighbours(freqs: Seq<isize>, freq: isize)
    requires
        ascending(freqs),
    ensures
        min_acceptable(freqs, freq) <= freq <= max_acceptable(freqs, freq),
        forall|i: int|
            0 <= i < freqs.len() ==> {
                ||| #[trigger] freqs[i] <= min_acceptable(freqs, freq)
                ||| freqs[i] >= max_acceptable(freqs, freq)
            },
        freqs.contains(freq) ==> min_acceptable(freqs, freq) == freq && max_acceptable(freqs, freq)
            == freq,
{
    let n = leading_at_most(freqs, freq);
    let m = leading_below(freqs, freq);
    lemma_leading_at_most(freqs, freq);
    lemma_leading_below(freqs, freq);
    assert forall|i: int, j: int| 0 <= i <= j < freqs.len() implies freqs[i] <= freqs[j] by {
        assert(freqs[i].value() <= freqs[j].value());
    }
    if freqs.contains(freq) {
        let k = choose|k: int| 0 <= k < freqs.len() && freqs[k] == freq;
        assert(k < n);
        assert(freqs[k] <= freqs[n - 1]);
        assert(m <= k);
        assert(freqs[m as int] <= freqs[k]);
    }
}

pub proof fn lemma_leading_at_most(freqs: Seq<isize>, limit: isize)
    ensures
        leading_at_most(freqs, limit) <= freqs.len(),
        forall|i: int| 0 <= i < leading_at_most(freqs, limit) ==> #[trigger] freqs[i] <= limit,
        leading_at_most(freqs, limit) < freqs.len() ==> freqs[leading_at_most(freqs, limit) as int]
            > limit,
    decreases freqs.len(),
{
    if freqs.len() > 0 && freqs[0] <= limit {
        let rest = freqs.drop_first();
        lemma_leading_at_most(rest, limit);
        assert forall|i: int| 0 <= i < leading_at_most(freqs, limit) implies #[trigger] freqs[i]
            <= limit by {
            if i > 0 {
                assert(rest[i - 1] == freqs[i]);
            }
        }
    }
}

pub proof fn lemma_leading_below(freqs: Seq<isize>, limit: isize)
    ensures
        leading_below(freqs, limit) <= freqs.len(),
        forall|i: int| 0 <= i < leading_below(freqs, limit) ==> #[trigger] freqs[i] < limit,
        leading_below(freqs, limit) < freqs.len() ==> freqs[leading_below(freqs, limit) as int]
            >= limit,
    decreases freqs.len(),
{
    if freqs.len() > 0 && freqs[0] < limit {
        let rest = freqs.drop_first();
        lemma_leading_below(rest, limit);
        assert forall|i: int| 0 <= i < leading_below(freqs, limit) implies #[trigger] freqs[i]
            < limit by {
            if i > 0 {
                assert(rest[i - 1] == freqs[i]);
            }
        }
    }
}

/// Where the set has room for all cores of a policy, the policy is critical if and only if one
/// of its cores is in the set.
pub proof fn lemma_critical_if_a_core_is_set(cpus: Seq<usize>, set: CpuSet)
    requires
        forall|i: int| 0 <= i < cpus.len() ==> #[trigger] cpus[i] < room(set),
    ensures
        any_core_set(cpus, set) == Some(
            exists|i: int| 0 <= i < cpus.len() && members(set).contains(#[trigger] cpus[i]),
        ),
    decreases cpus.len(),
{
    if cpus.len() > 0 {
        let rest = cpus.drop_first();
        assert forall|i: int| 0 <= i < rest.len() implies #[trigger] rest[i] < room(set) by {
            assert(rest[i] == cpus[i + 1]);
        }
        lemma_critical_if_a_core_is_set(rest, set);
        assert(cpus[0] < room(set));
        if !members(set).contains(cpus[0]) {
            if exists|i: int| 0 <= i < cpus.len() && members(set).contains(#[trigger] cpus[i]) {
                let k = choose|k: int|
                    0 <= k < cpus.len() && members(set).contains(#[trigger] cpus[k]);
                assert(rest[k - 1] == cpus[k]);
            }
            if exists|i: int| 0 <= i < rest.len() && members(set).contains(#[trigger] rest[i]) {
                let k = choose|k: int|
                    0 <= k < rest.len() && members(set).contains(#[trigger] rest[k]);
                assert(cpus[k + 1] == rest[k]);
            }
        }
    }
}

/// The counters that a reader gives cover the cores that it was made for, so that they can be
/// sampled.
pub proof fn lemma_reader_covers_cores(
    cpus: Seq<usize>,
    opened: Seq<i64>,
    cycles: Map<i32, Cycles>,
)
    requires
        cycles.dom() == descriptors(cpus, opened, cpus.len()).dom(),
    ensures
        covers(cycles, cpus, cpus.len()),
{
    assert forall|i: int| 0 <= i < cpus.len() implies #[trigger] cycles.contains_key(
        cpus[i] as i32,
    ) by {
        lemma_descriptor_of_core(cpus, opened, cpus.len(), i);
        assert(descriptors(cpus, opened, cpus.len()).dom().contains(cpus[i] as i32));
    }
}

/// As many cores without a sample.
fn no_baselines(n: usize) -> (r: Vec<Option<Cycles>>)
    ensures
        r@.len() == n,
        forall|i: int| 0 <= i < r@.len() ==> r@[i] is None,
{
    let mut r: Vec<Option<Cycles>> = Vec::new();
    let mut i: usize = 0;
    while i < n
        invariant
            i <= n,
            r@.len() == i,
            forall|k: int| 0 <= k < r@.len() ==> r@[k] is None,
        decreases n - i,
    {
        r.push(None);
        i = i + 1;
    }
    r
}

fn count_leading_at_most(freqs: &Vec<isize>, limit: isize) -> (n: usize)
    ensures
        n == leading_at_most(freqs@, limit),
        n <= freqs@.len(),
{
    let mut n: usize = 0;
    assert(freqs@.skip(0) == freqs@);
    while n < freqs.len() && freqs[n] <= limit
        invariant
            n <= freqs@.len(),
            leading_at_most(freqs@, limit) == n + leading_at_most(freqs@.skip(n as int), limit),
        decreases freqs@.len() - n,
    {
        assert(freqs@.skip(n as int).drop_first() == freqs@.skip(n + 1));
        n = n + 1;
    }
    n
}

fn count_leading_below(freqs: &Vec<isize>, limit: isize) -> (n: usize)
    ensures
        n == leading_below(freqs@, limit),
        n <= freqs@.len(),
{
    let mut n: usize = 0;
    assert(freqs@.skip(0) == freqs@);
    while n < freqs.len() && freqs[n] < limit
        invariant
            n <= freqs@.len(),
            leading_below(freqs@, limit) == n + leading_below(freqs@.skip(n as int), limit),
        decreases freqs@.len() - n,
    {
        assert(freqs@.skip(n as int).drop_first() == freqs@.skip(n + 1));
        n = n + 1;
    }
    n
}

} // verus!
