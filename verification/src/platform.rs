//! The functions of other crates that the scheduler calls.

use nix::sched::CpuSet;
use vstd::prelude::*;

verus! {

/// `likely_stable::likely` hints that a condition mostly holds, and returns it unchanged.
pub assume_specification[ likely_stable::likely ](b: bool) -> (r: bool)
    ensures
        r == b,
;

/// `likely_stable::unlikely` hints that a condition rarely holds, and returns it unchanged.
pub assume_specification[ likely_stable::unlikely ](b: bool) -> (r: bool)
    ensures
        r == b,
;

/// `nix::sched::CpuSet`, a set of processor cores.
#[verifier::external_type_specification]
#[verifier::external_body]
pub struct ExCpuSet(CpuSet);

/// The cores in a set.
pub uninterp spec fn members(set: CpuSet) -> Set<usize>;

/// The number of cores that a set has room for; a set tells nothing of cores from there on.
pub uninterp spec fn room(set: CpuSet) -> nat;

/// `CpuSet::is_set` tells whether a core is in the set, or fails where the set has no room
/// for that core.
#[verifier::external_body]
pub(crate) fn is_set(set: &CpuSet, core: usize) -> (r: Option<bool>)
    ensures
        r == (if core < room(*set) {
            Some(members(*set).contains(core))
        } else {
            None::<bool>
        }),
{
    set.is_set(core).ok()
}

} // verus!
