//! Sorting and removal of repeated values.

use vstd::prelude::*;
use vstd::seq_lib::{to_multiset_build, to_multiset_contains, to_multiset_insert};

verus! {

/// Integers that can be put in order.
pub trait Sortable: Copy {
    spec fn value(self) -> int;

    /// Equal values are the same.
    proof fn value_is_faithful(a: Self, b: Self)
        requires
            a.value() == b.value(),
        ensures
            a == b,
    ;

    fn precedes(self, other: Self) -> (r: bool)
        ensures
            r == (self.value() < other.value()),
    ;
}

impl Sortable for u32 {
    open spec fn value(self) -> int {
        self as int
    }

    proof fn value_is_faithful(a: Self, b: Self) {
    }

    fn precedes(self, other: Self) -> (r: bool) {
        self < other
    }
}

impl Sortable for isize {
    open spec fn value(self) -> int {
        self as int
    }

    proof fn value_is_faithful(a: Self, b: Self) {
    }

    fn precedes(self, other: Self) -> (r: bool) {
        self < other
    }
}

/// The values do not decrease.
pub open spec fn ascending<T: Sortable>(s: Seq<T>) -> bool {
    forall|i: int, j: int| 0 <= i <= j < s.len() ==> s[i].value() <= s[j].value()
}

/// Each value is above the one before.
pub open spec fn strictly_ascending<T: Sortable>(s: Seq<T>) -> bool {
    forall|i: int, j: int| 0 <= i < j < s.len() ==> s[i].value() < s[j].value()
}

/// The values of `v` in ascending order.
pub fn sorted<T: Sortable>(v: &Vec<T>) -> (r: Vec<T>)
    ensures
        ascending(r@),
        r@.to_multiset() == v@.to_multiset(),
        r@.len() == v@.len(),
        forall|x: T| r@.contains(x) <==> v@.contains(x),
{
    let mut r: Vec<T> = Vec::new();
    let mut i: usize = 0;
    assert(v@.take(0) == r@);
    while i < v.len()
        invariant
            i <= v@.len(),
            ascending(r@),
            r@.len() == i,
            r@.to_multiset() == v@.take(i as int).to_multiset(),
        decreases v@.len() - i,
    {
        let x = v[i];
        let mut p: usize = r.len();
        while p > 0 && x.precedes(r[p - 1])
            invariant
                p <= r@.len(),
                ascending(r@),
                forall|k: int| p <= k < r@.len() ==> x.value() < r@[k].value(),
            decreases p,
        {
            p = p - 1;
        }
        proof {
            to_multiset_insert(r@, p as int, x);
            to_multiset_build(v@.take(i as int), x);
            assert(v@.take(i as int).push(x) == v@.take(i + 1));
        }
        r.insert(p, x);
        i = i + 1;
    }
    proof {
        assert(v@.take(i as int) == v@);
        assert forall|x: T| r@.contains(x) <==> v@.contains(x) by {
            to_multiset_contains(r@, x);
            to_multiset_contains(v@, x);
        }
    }
    r
}

/// The values of an ascending list, each once.
pub fn deduplicated<T: Sortable>(v: &Vec<T>) -> (r: Vec<T>)
    requires
        ascending(v@),
    ensures
        strictly_ascending(r@),
        forall|x: T| r@.contains(x) <==> v@.contains(x),
{
    let mut r: Vec<T> = Vec::new();
    let mut i: usize = 0;
    while i < v.len()
        invariant
            i <= v@.len(),
            ascending(v@),
            strictly_ascending(r@),
            forall|k: int| 0 <= k < r@.len() ==> v@.contains(#[trigger] r@[k]),
            forall|k: int| 0 <= k < i ==> r@.contains(#[trigger] v@[k]),
            r@.len() > 0 ==> i > 0 && r@.last() == v@[i - 1],
            i > 0 ==> r@.len() > 0,
        decreases v@.len() - i,
    {
        let x = v[i];
        let ghost before = r@;
        if r.len() == 0 || r[r.len() - 1].precedes(x) {
            r.push(x);
            assert(r@[before.len() as int] == x);
            assert forall|k: int| 0 <= k < i implies r@.contains(#[trigger] v@[k]) by {
                let j = choose|j: int| 0 <= j < before.len() && before[j] == v@[k];
                assert(r@[j] == v@[k]);
            }
        } else {
            proof {
                T::value_is_faithful(r@.last(), x);
                assert(r@[r@.len() - 1] == x);
            }
        }
        i = i + 1;
    }
    assert forall|x: T| r@.contains(x) <==> v@.contains(x) by {
        if v@.contains(x) {
            let k = choose|k: int| 0 <= k < v@.len() && v@[k] == x;
            assert(r@.contains(v@[k]));
        }
    }
    r
}

} // verus!
