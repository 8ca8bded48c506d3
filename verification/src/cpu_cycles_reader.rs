//! Hardware cycle counters of the processor cores.

use crate::binary64::{at_most, integer, product, quotient, Binary64, MAX_NANOS};
use crate::timing::{in_seconds, seconds};
use std::collections::HashMap;
use vstd::prelude::*;
use vstd::std_specs::hash::spec_hash_map_iter;
use vstd::std_specs::iter::IteratorSpec;

verus! {

/// A number of clock cycles.
#[derive(Debug, Clone, Copy, PartialEq, Eq, PartialOrd, Ord, Structural)]
pub struct Cycles(pub u64);

/// The cycles that a core at `khz` runs through in `span` nanoseconds.
pub open spec fn capacity(span: nat, khz: u64) -> Binary64 {
    product(in_seconds(span), product(integer(khz as int), integer(1000)))
}

/// The share of its capacity that a core used up: `cycles` over the capacity, or zero
/// where there was none.
pub open spec fn usage(cycles: u64, span: nat, khz: u64) -> Binary64 {
    if at_most(capacity(span, khz), integer(0)) {
        integer(0)
    } else {
        quotient(integer(cycles as int), capacity(span, khz))
    }
}

impl Cycles {
    /// The reference for a core that is busy at this frequency, in kHz, for a whole sampling
    /// window.
    pub fn from_khz(khz: u64) -> (r: Self)
        ensures
            r.0 == khz,
    {
        Cycles(khz)
    }

    /// The share of a window of `duration` nanoseconds that these cycles take at the reference
    /// frequency. It may be above one, where the core ran faster than the reference.
    pub fn as_usage(&self, duration: u128, freq_cycles: Cycles) -> (r: Binary64)
        requires
            duration <= MAX_NANOS,
        ensures
            r == usage(self.0, duration as nat, freq_cycles.0),
    {
        let freq_hz = Binary64::from_u64(freq_cycles.0).mul(Binary64::from_u64(1000));
        let full = seconds(duration).mul(freq_hz);
        if full.le(Binary64::from_u64(0)) {
            return Binary64::from_u64(0);
        }
        Binary64::from_u64(self.0).div(full)
    }
}

impl std::ops::Sub for Cycles {
    type Output = Cycles;

    fn sub(self, other: Cycles) -> (r: Cycles) {
        Cycles(self.0.saturating_sub(other.0))
    }
}

impl vstd::std_specs::ops::SubSpecImpl for Cycles {
    open spec fn obeys_sub_spec() -> bool {
        true
    }

    open spec fn sub_req(self, other: Cycles) -> bool {
        true
    }

    open spec fn sub_spec(self, other: Cycles) -> Cycles {
        Cycles(if self.0 < other.0 {
            0
        } else {
            (self.0 - other.0) as u64
        })
    }
}

/// One perf event counter per core.
pub struct CyclesReader {
    fds: HashMap<i32, i32>,
}

impl View for CyclesReader {
    type V = Map<i32, i32>;

    closed spec fn view(&self) -> Map<i32, i32> {
        self.fds@
    }
}

/// Why the counters could not be opened or read.
#[derive(Debug, Clone, Copy, PartialEq, Eq, Structural)]
pub enum CyclesError {
    /// The counter of this core could not be opened.
    OpenFailed { cpu: usize },
    /// The counter of this core could not be read.
    ReadFailed { core: i32 },
}

/// What one attempt to read a counter gave.
#[derive(Debug, Clone, Copy)]
pub struct Reading {
    pub cpu: i32,
    /// The number of bytes read, negative where reading failed.
    pub count: isize,
    pub value: u64,
}

/// The descriptors of the first `n` cores.
pub open spec fn descriptors(cpus: Seq<usize>, opened: Seq<i64>, n: nat) -> Map<i32, i32>
    decreases n,
{
    if n == 0 {
        Map::empty()
    } else {
        descriptors(cpus, opened, (n - 1) as nat).insert(
            cpus[n - 1] as i32,
            opened[n - 1] as i32,
        )
    }
}

/// There is a descriptor for each of the first `n` cores.
pub proof fn lemma_descriptor_of_core(cpus: Seq<usize>, opened: Seq<i64>, n: nat, i: int)
    requires
        0 <= i < n,
    ensures
        descriptors(cpus, opened, n).contains_key(cpus[i] as i32),
    decreases n,
{
    if i < n - 1 {
        lemma_descriptor_of_core(cpus, opened, (n - 1) as nat, i);
    }
}

/// The counters of the first `n` readings.
pub open spec fn counters(readings: Seq<Reading>, n: nat) -> Map<i32, Cycles>
    decreases n,
{
    if n == 0 {
        Map::empty()
    } else {
        counters(readings, (n - 1) as nat).insert(
            readings[n - 1].cpu,
            Cycles(readings[n - 1].value),
        )
    }
}

impl CyclesReader {
    /// A reader for these cores, from what opening their counters gave in turn.
    ///
    /// `opened` ends with the first counter that could not be opened, which a negative number
    /// tells.
    pub fn new(cpus: &[usize], opened: &[i64]) -> (r: Result<Self, CyclesError>)
        requires
            opened@.len() <= cpus@.len(),
            opened@.len() < cpus@.len() ==> opened@.len() > 0 && opened@.last() < 0,
        ensures
            match r {
                Ok(reader) => {
                    &&& opened@.len() == cpus@.len()
                    &&& forall|i: int| 0 <= i < opened@.len() ==> opened@[i] >= 0
                    &&& reader@ == descriptors(cpus@, opened@, cpus@.len())
                },
                Err(e) => exists|k: int|
                    0 <= k < opened@.len() && #[trigger] opened@[k] < 0 && (forall|i: int|
                        0 <= i < k ==> opened@[i] >= 0) && e == (CyclesError::OpenFailed {
                        cpu: cpus@[k],
                    }),
            },
    {
        broadcast use vstd::std_specs::hash::group_hash_axioms;

        let mut fds: HashMap<i32, i32> = HashMap::with_capacity(cpus.len());
        let mut i: usize = 0;
        while i < opened.len()
            invariant
                i <= opened@.len() <= cpus@.len(),
                forall|k: int| 0 <= k < i ==> opened@[k] >= 0,
                fds@ == descriptors(cpus@, opened@, i as nat),
            decreases opened@.len() - i,
        {
            if opened[i] < 0 {
                return Err(CyclesError::OpenFailed { cpu: cpus[i] });
            }
            fds.insert(
                #[verifier::truncate]
                (cpus[i] as i32),
                #[verifier::truncate]
                (opened[i] as i32),
            );
            i = i + 1;
        }
        Ok(CyclesReader { fds })
    }

    /// The counters of all cores, from what reading them gave in turn.
    ///
    /// `readings` is of cores of this reader. It covers all of them, unless it ends with the
    /// first that failed.
    pub fn read(&self, readings: &[Reading]) -> (r: Result<HashMap<i32, Cycles>, CyclesError>)
        requires
            forall|i: int|
                0 <= i < readings@.len() ==> self@.contains_key(#[trigger] readings@[i].cpu),
            readings@.len() > 0 && readings@.last().count < 0 || forall|cpu: i32| #[trigger]
                self@.contains_key(cpu) ==> exists|i: int|
                    0 <= i < readings@.len() && #[trigger] readings@[i].cpu == cpu,
        ensures
            match r {
                Ok(map) => {
                    &&& forall|i: int| 0 <= i < readings@.len() ==> readings@[i].count >= 0
                    &&& map@ == counters(readings@, readings@.len())
                    &&& map@.dom() == self@.dom()
                },
                Err(e) => exists|k: int|
                    0 <= k < readings@.len() && (#[trigger] readings@[k]).count < 0 && (forall|
                        i: int,
                    |
                        0 <= i < k ==> readings@[i].count >= 0) && e == (CyclesError::ReadFailed {
                        core: readings@[k].cpu,
                    }),
            },
    {
        broadcast use vstd::std_specs::hash::group_hash_axioms;

        let mut map: HashMap<i32, Cycles> = HashMap::with_capacity(self.fds.len());
        let mut i: usize = 0;
        while i < readings.len()
            invariant
                i <= readings@.len(),
                forall|k: int| 0 <= k < i ==> readings@[k].count >= 0,
                map@ == counters(readings@, i as nat),
                forall|cpu: i32| #[trigger]
                    map@.contains_key(cpu) <==> exists|k: int|
                        0 <= k < i && #[trigger] readings@[k].cpu == cpu,
            decreases readings@.len() - i,
        {
            let reading = readings[i];
            if reading.count < 0 {
                return Err(CyclesError::ReadFailed { core: reading.cpu });
            }
            let ghost before = map@;
            map.insert(reading.cpu, Cycles(reading.value));
            assert forall|cpu: i32| #[trigger] map@.contains_key(cpu) implies exists|k: int|
                0 <= k < i + 1 && #[trigger] readings@[k].cpu == cpu by {
                if cpu == reading.cpu {
                    assert(readings@[i as int].cpu == cpu);
                } else {
                    assert(before.contains_key(cpu));
                }
            }
            i = i + 1;
        }
        assert(map@.dom() == self@.dom()) by {
            assert forall|cpu: i32| map@.contains_key(cpu) <==> self@.contains_key(cpu) by {}
        }
        Ok(map)
    }

    /// The cores of this reader with the descriptors of their counters.
    pub fn fds(&self) -> (r: Vec<(i32, i32)>)
        ensures
            r@.no_duplicates(),
            r@.to_set() == self@.kv_pairs(),
    {
        broadcast use vstd::std_specs::hash::group_hash_axioms;

        let ghost all = spec_hash_map_iter(&self.fds).remaining().unref();
        let mut r: Vec<(i32, i32)> = Vec::new();
        for kv in it: self.fds.iter()
            invariant
                r@ == it.seq().unref().take(it.index() as int),
                it.seq().unref() == all,
                all.to_set() == self.fds@.kv_pairs(),
                it.seq().no_duplicates(),
        {
            r.push((*kv.0, *kv.1));
        }
        assert(r@ == all);
        r
    }
}

} // verus!
