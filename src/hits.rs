//! Intersection results and the rule for choosing the nearer of two.
use vstd::prelude::*;

verus! {

/// The parameter along the ray at which primitive `prim` was hit.
#[derive(Clone, Copy, Debug, PartialEq, Eq, Structural)]
pub struct HitInfo {
    pub time: i64,
    pub prim: usize,
}

/// `o` is a hit strictly inside `(tmin, tmax)`.
pub open spec fn valid_t(o: Option<i64>, tmin: i64, tmax: i64) -> bool {
    o is Some && tmin < o->0 && o->0 < tmax
}

/// The nearer of two optional hits: on a tie the second one.
pub open spec fn nearer(a: Option<i64>, b: Option<i64>) -> Option<i64> {
    match (a, b) {
        (Some(x), Some(y)) => if x < y { a } else { b },
        (Some(_), None) => a,
        _ => b,
    }
}

/// The time of a hit, if any.
pub open spec fn time_of(h: Option<HitInfo>) -> Option<i64> {
    match h {
        Some(x) => Some(x.time),
        None => None,
    }
}

/// The nearer of two hits; the second one wins a tie.
pub fn closer(a: Option<HitInfo>, b: Option<HitInfo>) -> (r: Option<HitInfo>)
    ensures
        r == (if a is Some && b is Some {
            if a->0.time < b->0.time { a } else { b }
        } else if a is Some {
            a
        } else {
            b
        }),
        time_of(r) == nearer(time_of(a), time_of(b)),
{
    match (a, b) {
        (Some(x), Some(y)) => if x.time < y.time { a } else { b },
        (Some(_), None) => a,
        _ => b,
    }
}

} // verus!
