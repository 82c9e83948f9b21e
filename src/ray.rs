//! Rays on the integer grid.
use vstd::prelude::*;
use crate::vector::{Axis, Vec3};

verus! {

/// A half-line: the points `origin + t * direction`.
#[derive(Clone, Copy, Debug, PartialEq, Eq, Structural)]
pub struct Ray {
    pub origin: Vec3,
    pub direction: Vec3,
}

impl Ray {
    /// Coordinate on axis `a` of the point at parameter `t`.
    pub open spec fn point_at(self, t: int, a: Axis) -> int {
        self.origin.at(a) + t * self.direction.at(a)
    }

    pub fn new(origin: Vec3, direction: Vec3) -> (r: Ray)
        ensures
            r.origin == origin && r.direction == direction,
    {
        Ray { origin, direction }
    }

    pub fn origin(&self) -> (r: Vec3)
        ensures
            r == self.origin,
    {
        self.origin
    }

    pub fn direction(&self) -> (r: Vec3)
        ensures
            r == self.direction,
    {
        self.direction
    }

    /// The point `origin + t * direction`, where it lies on the grid.
    pub fn point_at_parameter(&self, t: i32) -> (r: Vec3)
        requires
            forall|a: Axis| i32::MIN <= #[trigger] self.point_at(t as int, a) <= i32::MAX,
        ensures
            forall|a: Axis| #[trigger] r.at(a) == self.point_at(t as int, a),
    {
        assert(i32::MIN <= self.point_at(t as int, Axis::X) <= i32::MAX);
        assert(i32::MIN <= self.point_at(t as int, Axis::Y) <= i32::MAX);
        assert(i32::MIN <= self.point_at(t as int, Axis::Z) <= i32::MAX);
        let x = self.origin.x as i64 + t as i64 * self.direction.x as i64;
        let y = self.origin.y as i64 + t as i64 * self.direction.y as i64;
        let z = self.origin.z as i64 + t as i64 * self.direction.z as i64;
        Vec3 { x: x as i32, y: y as i32, z: z as i32 }
    }
}

} // verus!
