//! Rays, parameter intervals and the record of a hit.
use vstd::prelude::*;
use crate::geometry::lattice::Homogeneous;
use crate::geometry::lattice::Point3;
use crate::geometry::lattice::Vector3;
use crate::geometry::ratio::Ratio;

verus! {

/// A ray: the points `origin + t * direction` for the parameters `t`.
#[derive(Clone, Copy, Debug, PartialEq, Eq, Structural)]
pub struct Ray {
    pub origin: Point3,
    pub direction: Vector3,
}

/// A closed interval of ray parameters.
#[derive(Clone, Copy, Debug, PartialEq, Eq, Structural)]
pub struct Interval {
    pub start: Ratio,
    pub finish: Ratio,
}

/// Barycentric coordinates on a triangle.
#[derive(Clone, Copy, Debug, PartialEq, Eq, Structural)]
pub struct Barycentric {
    pub alpha: Ratio,
    pub beta: Ratio,
    pub gamma: Ratio,
}

/// The full record of a ray meeting a surface.
#[derive(Clone, Copy, Debug, PartialEq, Eq, Structural)]
pub struct Intersection {
    pub distance: Ratio,
    pub alpha: Ratio,
    pub beta: Ratio,
    pub gamma: Ratio,
    pub v1: u32,
    pub v2: u32,
    pub v3: u32,
    pub material: u32,
    pub point: Homogeneous,
    pub normal: Homogeneous,
}

/// Something a ray can be cast against.
pub trait Intersectable {
    /// The nearest hit of `ray`, if there is one.
    fn intersect(&self, ray: Ray) -> Option<Intersection>;
}

impl Interval {
    /// The interval that stands for "the ray does not pass": both ends at
    /// the positive infinity.
    pub open spec fn missing() -> Interval {
        Interval { start: Ratio::infinity_spec(), finish: Ratio::infinity_spec() }
    }

    /// The interval between two parameters, given in either order.
    pub fn new(s: Ratio, f: Ratio) -> (r: Interval)
        ensures
            r.start == s.lesser(f),
            r.finish == s.greater(f),
    {
        Interval { start: s.min(f), finish: s.max(f) }
    }
}

impl Intersection {
    pub open spec fn empty_spec() -> Intersection {
        Intersection {
            distance: Ratio::infinity_spec(),
            alpha: Ratio { num: 0, den: 1 },
            beta: Ratio { num: 0, den: 1 },
            gamma: Ratio { num: 0, den: 1 },
            v1: 0,
            v2: 0,
            v3: 0,
            material: 0,
            point: Homogeneous::origin_spec(),
            normal: Homogeneous::origin_spec(),
        }
    }

    /// The record of no hit: an infinite distance, everything else zero.
    #[verifier::when_used_as_spec(empty_spec)]
    pub fn empty() -> (r: Intersection)
        ensures
            r == Intersection::empty_spec(),
    {
        Intersection {
            distance: Ratio::infinity(),
            alpha: Ratio::from_int(0),
            beta: Ratio::from_int(0),
            gamma: Ratio::from_int(0),
            v1: 0,
            v2: 0,
            v3: 0,
            material: 0,
            point: Homogeneous::origin(),
            normal: Homogeneous::origin(),
        }
    }
}

} // verus!
