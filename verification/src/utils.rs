use vstd::prelude::*;
use std::ops::Bound;
use crate::errors::Error;

verus! {

/// `std::ops::Bound`, with its three variants: a bound that includes its
/// value, one that excludes it, and none.
#[verifier::external_type_specification]
#[verifier::reject_recursive_types(T)]
pub struct ExBound<T>(Bound<T>);

/// A bound on borrowed timestamps, as a bound on the timestamps themselves.
pub open spec fn owned_bound(bound: Bound<&i64>) -> Bound<i64> {
    match bound {
        Bound::Included(ts) => Bound::Included(*ts),
        Bound::Excluded(ts) => Bound::Excluded(*ts),
        Bound::Unbounded => Bound::Unbounded,
    }
}

/// The timestamp that a bound names, if it names one.
pub open spec fn bound_value(bound: Bound<i64>) -> Option<i64> {
    match bound {
        Bound::Included(ts) => Some(ts),
        Bound::Excluded(ts) => Some(ts),
        Bound::Unbounded => None,
    }
}

/// Whether a pair of bounds is accepted as a range: where both name a
/// timestamp, the start is below the end, or equal to it with both sides
/// inclusive.
pub open spec fn well_formed_bounds(start_bound: Bound<i64>, end_bound: Bound<i64>) -> bool {
    match (bound_value(start_bound), bound_value(end_bound)) {
        (Some(start_ts), Some(end_ts)) => start_ts < end_ts || (start_ts == end_ts
            && start_bound is Included && end_bound is Included),
        _ => true,
    }
}

/// Whether `timestamp` is at or after the start of a range.
pub open spec fn after_start(start_bound: Bound<i64>, timestamp: int) -> bool {
    match start_bound {
        Bound::Included(start_ts) => start_ts <= timestamp,
        Bound::Excluded(start_ts) => start_ts < timestamp,
        Bound::Unbounded => true,
    }
}

/// Whether `timestamp` is at or before the end of a range.
pub open spec fn before_end(end_bound: Bound<i64>, timestamp: int) -> bool {
    match end_bound {
        Bound::Included(end_ts) => timestamp <= end_ts,
        Bound::Excluded(end_ts) => timestamp < end_ts,
        Bound::Unbounded => true,
    }
}

/// Whether `timestamp` lies within the two bounds.
pub open spec fn in_bounds(start_bound: Bound<i64>, end_bound: Bound<i64>, timestamp: int) -> bool {
    after_start(start_bound, timestamp) && before_end(end_bound, timestamp)
}

/// The timestamp that a bound names, if it names one.
pub fn unwrap_bound(bound: Bound<&i64>) -> (ts: Option<i64>)
    ensures
        ts == bound_value(owned_bound(bound)),
{
    match bound {
        Bound::Included(ts) => Some(*ts),
        Bound::Excluded(ts) => Some(*ts),
        Bound::Unbounded => None,
    }
}

/// Accepts the bounds of a range, or refuses them with `BadRange`.
pub fn check_bounds(start_bound: Bound<&i64>, end_bound: Bound<&i64>) -> (checked: Result<
    (),
    Error,
>)
    ensures
        checked is Ok <==> well_formed_bounds(owned_bound(start_bound), owned_bound(end_bound)),
        checked is Err ==> checked->Err_0 is BadRange,
{
    match (unwrap_bound(start_bound), unwrap_bound(end_bound)) {
        (Some(start_ts), Some(end_ts)) => {
            if start_ts < end_ts {
                Ok(())
            } else if start_ts == end_ts {
                let start_excluded = match start_bound {
                    Bound::Excluded(_) => true,
                    _ => false,
                };
                let end_excluded = match end_bound {
                    Bound::Excluded(_) => true,
                    _ => false,
                };
                if start_excluded || end_excluded {
                    Err(Error::BadRange)
                } else {
                    Ok(())
                }
            } else {
                Err(Error::BadRange)
            }
        },
        _ => Ok(()),
    }
}

/// A bound on timestamps in microseconds, as plain data that has not been
/// checked against another bound.
#[derive(Clone, Copy, Debug, PartialEq, Eq)]
pub enum ArbitraryMicrosBound {
    Included(i64),
    Excluded(i64),
    Unbounded,
}

impl ArbitraryMicrosBound {
    /// The bound as a range bound.
    pub fn to_bound(&self) -> (bound: Bound<i64>)
        ensures
            bound == match *self {
                ArbitraryMicrosBound::Included(micros) => Bound::Included(micros),
                ArbitraryMicrosBound::Excluded(micros) => Bound::Excluded(micros),
                ArbitraryMicrosBound::Unbounded => Bound::Unbounded,
            },
    {
        match self {
            ArbitraryMicrosBound::Included(micros) => Bound::Included(*micros),
            ArbitraryMicrosBound::Excluded(micros) => Bound::Excluded(*micros),
            ArbitraryMicrosBound::Unbounded => Bound::Unbounded,
        }
    }
}

/// Two bounds on timestamps in microseconds that have not been checked
/// against each other: they may be reversed.
#[derive(Clone, Copy, Debug, PartialEq, Eq)]
pub struct ArbitraryMicrosRange {
    pub start_bound: ArbitraryMicrosBound,
    pub end_bound: ArbitraryMicrosBound,
}

impl ArbitraryMicrosRange {
    /// The two bounds as range bounds, start first.
    pub fn to_bounds(&self) -> (bounds: (Bound<i64>, Bound<i64>))
        ensures
            bounds.0 == match self.start_bound {
                ArbitraryMicrosBound::Included(micros) => Bound::Included(micros),
                ArbitraryMicrosBound::Excluded(micros) => Bound::Excluded(micros),
                ArbitraryMicrosBound::Unbounded => Bound::Unbounded,
            },
            bounds.1 == match self.end_bound {
                ArbitraryMicrosBound::Included(micros) => Bound::Included(micros),
                ArbitraryMicrosBound::Excluded(micros) => Bound::Excluded(micros),
                ArbitraryMicrosBound::Unbounded => Bound::Unbounded,
            },
    {
        (self.start_bound.to_bound(), self.end_bound.to_bound())
    }
}

/// A pair of bounds is refused only if no timestamp lies within it.
pub proof fn lemma_refused_bounds_match_nothing(
    start_bound: Bound<i64>,
    end_bound: Bound<i64>,
    timestamp: int,
)
    requires
        !well_formed_bounds(start_bound, end_bound),
    ensures
        !in_bounds(start_bound, end_bound, timestamp),
{
}

/// Two inclusive bounds on one timestamp are accepted, and hold that
/// timestamp and no other.
pub proof fn lemma_point_bounds(at: i64, timestamp: int)
    ensures
        well_formed_bounds(Bound::Included(at), Bound::Included(at)),
        in_bounds(Bound::Included(at), Bound::Included(at), timestamp) <==> timestamp == at,
{
}

} // verus!
