//! Spans of time in whole nanoseconds, and moments on a monotonic clock.

use crate::binary64::{integer, nanos_of_seconds, product, quotient, sum, Binary64, MAX_NANOS};
use vstd::prelude::*;

verus! {

/// The nanoseconds in a second.
pub const SECOND: u128 = 1_000_000_000;

/// The nanoseconds in a millisecond.
pub const MILLISECOND: u128 = 1_000_000;

/// A reading of a monotonic clock, in nanoseconds from a fixed origin.
#[derive(Clone, Copy, Debug, PartialEq, Eq, Structural)]
pub struct Moment {
    pub nanos: i128,
}

/// The time from `then` to `now`, zero where `then` is the later one.
pub open spec fn elapsed(then: Moment, now: Moment) -> nat {
    if now.nanos >= then.nanos {
        (now.nanos - then.nanos) as nat
    } else {
        0
    }
}

/// The moment a span before `now`, or the first moment of the clock where that is later.
pub open spec fn earlier(now: Moment, span: nat) -> Moment {
    Moment {
        nanos: if now.nanos - span < i128::MIN {
            i128::MIN
        } else {
            (now.nanos - span) as i128
        },
    }
}

impl Moment {
    /// The moment `span` nanoseconds before this one.
    pub fn earlier(self, span: u64) -> (r: Moment)
        ensures
            r == earlier(self, span as nat),
    {
        if self.nanos < i128::MIN + (span as i128) {
            Moment { nanos: i128::MIN }
        } else {
            Moment { nanos: self.nanos - (span as i128) }
        }
    }

    /// The time from this moment to `now`, zero where this moment is the later one.
    pub fn elapsed(self, now: Moment) -> (r: u128)
        ensures
            r == elapsed(self, now),
    {
        if now.nanos < self.nanos {
            0
        } else if now.nanos >= 0 && self.nanos < 0 {
            (now.nanos as u128) + ((-(self.nanos + 1)) as u128) + 1
        } else {
            (now.nanos - self.nanos) as u128
        }
    }
}

/// A span in seconds: its whole seconds plus its nanoseconds over 10^9.
pub open spec fn in_seconds(span: nat) -> Binary64 {
    sum(
        integer((span / 1_000_000_000) as int),
        quotient(integer((span % 1_000_000_000) as int), integer(1_000_000_000)),
    )
}

/// The number of seconds in a span.
pub fn seconds(span: u128) -> (r: Binary64)
    requires
        span <= MAX_NANOS,
    ensures
        r == in_seconds(span as nat),
{
    let whole = Binary64::from_u64((span / SECOND) as u64);
    let nanos = Binary64::from_u64((span % SECOND) as u64);
    let fraction = nanos.div(Binary64::from_u64(1_000_000_000));
    whole.add(fraction)
}

/// A span times a factor, in seconds.
pub open spec fn stretched_seconds(span: nat, factor: Binary64) -> Binary64 {
    product(factor, in_seconds(span))
}

/// Whether a span times a factor is a span again: neither NaN, nor negative, nor too long.
pub open spec fn stretches(span: nat, factor: Binary64) -> bool {
    let result = stretched_seconds(span, factor);
    !result.nan() && result.order() >= 0 && nanos_of_seconds(result) <= MAX_NANOS
}

/// A span times a factor, to the nearest nanosecond, where that is a span again.
pub fn stretch(span: u128, factor: Binary64) -> (r: Option<u128>)
    requires
        span <= MAX_NANOS,
    ensures
        r is Some <==> stretches(span as nat, factor),
        r matches Some(n) ==> n == nanos_of_seconds(stretched_seconds(span as nat, factor)) && n
            <= MAX_NANOS,
{
    factor.mul(seconds(span)).to_nanos()
}

} // verus!
