//! Axis-aligned bounding boxes.
use vstd::prelude::*;
use crate::vector::{Axis, Vec3};
use crate::ray::Ray;

verus! {

/// A box given by its lowest and its highest corner.
#[derive(Clone, Copy, Debug, PartialEq, Eq, Structural)]
pub struct AABB {
    pub min: Vec3,
    pub max: Vec3,
}

/// `a` and `b` are componentwise ordered.
pub open spec fn le3(a: Vec3, b: Vec3) -> bool {
    a.x <= b.x && a.y <= b.y && a.z <= b.z
}

pub open spec fn min_int(a: int, b: int) -> int {
    if a < b { a } else { b }
}

pub open spec fn max_int(a: int, b: int) -> int {
    if a > b { a } else { b }
}

/// Position of an axis in the order X, Y, Z.
pub open spec fn axis_order(a: Axis) -> int {
    match a {
        Axis::X => 0,
        Axis::Y => 1,
        Axis::Z => 2,
    }
}

/// `p.0 / p.1 < q.0 / q.1` for positive denominators.
pub open spec fn frac_lt(p: (int, int), q: (int, int)) -> bool {
    p.0 * q.1 < q.0 * p.1
}

/// The smallest box that encloses both `a` and `b`.
pub open spec fn union(a: AABB, b: AABB) -> AABB {
    AABB {
        min: Vec3 {
            x: if a.min.x < b.min.x { a.min.x } else { b.min.x },
            y: if a.min.y < b.min.y { a.min.y } else { b.min.y },
            z: if a.min.z < b.min.z { a.min.z } else { b.min.z },
        },
        max: Vec3 {
            x: if a.max.x > b.max.x { a.max.x } else { b.max.x },
            y: if a.max.y > b.max.y { a.max.y } else { b.max.y },
            z: if a.max.z > b.max.z { a.max.z } else { b.max.z },
        },
    }
}

/// Bound on the product of two edge lengths of the grid.
proof fn lemma_edge_product(a: int, b: int)
    requires
        -0x1_0000_0000 <= a <= 0x1_0000_0000,
        -0x1_0000_0000 <= b <= 0x1_0000_0000,
    ensures
        -0x1_0000_0000_0000_0000 <= a * b <= 0x1_0000_0000_0000_0000,
{
    assert(-0x1_0000_0000_0000_0000 <= a * b <= 0x1_0000_0000_0000_0000) by (nonlinear_arith)
        requires
            -0x1_0000_0000 <= a <= 0x1_0000_0000,
            -0x1_0000_0000 <= b <= 0x1_0000_0000,
    ;
}

/// Bound on a time bound scaled by a direction component.
proof fn lemma_cross_bound(t: int, d: int)
    requires
        i64::MIN <= t <= i64::MAX,
        0 < d <= 0x8000_0000,
    ensures
        -0x8000_0000_0000_0000_0000_0000 <= t * d <= 0x8000_0000_0000_0000_0000_0000,
{
    assert(-0x8000_0000_0000_0000_0000_0000 <= t * d <= 0x8000_0000_0000_0000_0000_0000)
        by (nonlinear_arith)
        requires
            -0x8000_0000_0000_0000 <= t <= 0x8000_0000_0000_0000,
            0 < d <= 0x8000_0000,
    ;
}

impl AABB {
    pub open spec fn lo(self, a: Axis) -> int {
        self.min.at(a)
    }

    pub open spec fn hi(self, a: Axis) -> int {
        self.max.at(a)
    }

    /// The lowest corner lies below the highest on every axis.
    pub open spec fn wf(self) -> bool {
        le3(self.min, self.max)
    }

    /// Edge length along an axis.
    pub open spec fn extent(self, a: Axis) -> int {
        self.hi(a) - self.lo(a)
    }

    /// `self` encloses `inner`.
    pub open spec fn contains(self, inner: AABB) -> bool {
        &&& le3(self.min, inner.min)
        &&& le3(inner.max, self.max)
    }

    pub open spec fn area_spec(self) -> int {
        let a = self.extent(Axis::X);
        let b = self.extent(Axis::Y);
        let c = self.extent(Axis::Z);
        2 * (a * b + b * c + c * a)
    }

    pub open spec fn longest_axis_spec(self) -> Axis {
        let a = self.extent(Axis::X);
        let b = self.extent(Axis::Y);
        let c = self.extent(Axis::Z);
        if a >= b && a >= c {
            Axis::X
        } else if b >= c {
            Axis::Y
        } else {
            Axis::Z
        }
    }

    /// Entry parameter of the ray into the slab of axis `a`, as numerator
    /// and positive denominator (for a direction that is not zero on `a`).
    pub open spec fn entry(self, r: Ray, a: Axis) -> (int, int) {
        let d = r.direction.at(a);
        let o = r.origin.at(a);
        if d > 0 {
            (self.lo(a) - o, d)
        } else {
            (o - self.hi(a), -d)
        }
    }

    /// Exit parameter of the ray from the slab of axis `a`, as for `entry`.
    pub open spec fn exit(self, r: Ray, a: Axis) -> (int, int) {
        let d = r.direction.at(a);
        let o = r.origin.at(a);
        if d > 0 {
            (self.hi(a) - o, d)
        } else {
            (o - self.lo(a), -d)
        }
    }

    /// The ray stays inside the box over an interval of positive length
    /// within `(tmin, tmax)` (no `tmax` means no upper bound): every entry
    /// bound lies strictly below every exit bound, and on an axis along
    /// which the ray does not move its origin lies within the slab.
    pub open spec fn hit_spec(self, r: Ray, tmin: int, tmax: Option<int>) -> bool {
        &&& forall|a: Axis| #[trigger] r.direction.at(a) == 0
            ==> self.lo(a) <= r.origin.at(a) <= self.hi(a)
        &&& forall|a: Axis| #[trigger] r.direction.at(a) != 0
            ==> frac_lt((tmin, 1), self.exit(r, a))
        &&& forall|a: Axis| #[trigger] r.direction.at(a) != 0 && tmax is Some
            ==> frac_lt(self.entry(r, a), (tmax->0, 1))
        &&& forall|a: Axis, b: Axis| r.direction.at(a) != 0 && r.direction.at(b) != 0
            ==> #[trigger] frac_lt(self.entry(r, a), self.exit(r, b))
        &&& tmax is Some ==> tmin < tmax->0
    }

    pub fn new(a: Vec3, b: Vec3) -> (r: AABB)
        requires
            le3(a, b),
        ensures
            r.min == a && r.max == b,
            r.wf(),
    {
        AABB { min: a, max: b }
    }

    /// The box that holds the origin alone.
    pub fn zero() -> (r: AABB)
        ensures
            r.min == (Vec3 { x: 0, y: 0, z: 0 }),
            r.max == (Vec3 { x: 0, y: 0, z: 0 }),
            r.wf(),
    {
        AABB { min: Vec3::new(0, 0, 0), max: Vec3::new(0, 0, 0) }
    }

    pub fn min(&self) -> (r: Vec3)
        ensures
            r == self.min,
    {
        self.min
    }

    pub fn max(&self) -> (r: Vec3)
        ensures
            r == self.max,
    {
        self.max
    }

    /// The axis of the longest edge; on a tie X wins over Y and Y over Z.
    pub fn longest_axis(&self) -> (r: Axis)
        ensures
            r == self.longest_axis_spec(),
            forall|ax: Axis| self.extent(r) >= #[trigger] self.extent(ax),
            forall|ax: Axis| axis_order(ax) < axis_order(r) ==> #[trigger] self.extent(ax) < self.extent(r),
    {
        let a = self.max.x as i64 - self.min.x as i64;
        let b = self.max.y as i64 - self.min.y as i64;
        let c = self.max.z as i64 - self.min.z as i64;
        if a >= b && a >= c {
            Axis::X
        } else if b >= c {
            Axis::Y
        } else {
            Axis::Z
        }
    }

    /// Entry and exit numerators and the common denominator on axis `a`.
    fn slab(&self, r: &Ray, a: Axis) -> (res: (i128, i128, i128))
        requires
            r.direction.at(a) != 0,
        ensures
            (res.0 as int, res.2 as int) == self.entry(*r, a),
            (res.1 as int, res.2 as int) == self.exit(*r, a),
            0 < res.2 <= 0x8000_0000,
            -0x1_0000_0000 <= res.0 <= 0x1_0000_0000,
            -0x1_0000_0000 <= res.1 <= 0x1_0000_0000,
    {
        let d = r.direction.get(a) as i128;
        let o = r.origin.get(a) as i128;
        let lo = self.min.get(a) as i128;
        let hi = self.max.get(a) as i128;
        if d > 0 {
            (lo - o, hi - o, d)
        } else {
            (o - hi, o - lo, -d)
        }
    }

    /// The checks of `hit_spec` that concern axis `a` alone.
    fn axis_ok(&self, r: &Ray, time_min: i64, time_max: Option<i64>, a: Axis) -> (res: bool)
        ensures
            res == (if r.direction.at(a) == 0 {
                self.lo(a) <= r.origin.at(a) <= self.hi(a)
            } else {
                frac_lt((time_min as int, 1), self.exit(*r, a)) && (time_max is Some
                    ==> frac_lt(self.entry(*r, a), (time_max->0 as int, 1)))
            }),
    {
        if r.direction.get(a) == 0 {
            let o = r.origin.get(a);
            self.min.get(a) <= o && o <= self.max.get(a)
        } else {
            let (n_in, n_out, d) = self.slab(r, a);
            let t0 = time_min as i128;
            proof {
                lemma_cross_bound(t0 as int, d as int);
            }
            if !(t0 * d < n_out) {
                return false;
            }
            match time_max {
                Some(t1) => {
                    proof {
                        lemma_cross_bound(t1 as int, d as int);
                    }
                    n_in < (t1 as i128) * d
                },
                None => true,
            }
        }
    }

    /// The entry bound of axis `a` lies below the exit bound of axis `b`.
    fn pair_ok(&self, r: &Ray, a: Axis, b: Axis) -> (res: bool)
        ensures
            res == (r.direction.at(a) == 0 || r.direction.at(b) == 0 || frac_lt(
                self.entry(*r, a),
                self.exit(*r, b),
            )),
    {
        if r.direction.get(a) == 0 || r.direction.get(b) == 0 {
            return true;
        }
        let (n_in, _x, d_a) = self.slab(r, a);
        let (_y, n_out, d_b) = self.slab(r, b);
        proof {
            lemma_edge_product(n_in as int, d_b as int);
            lemma_edge_product(n_out as int, d_a as int);
        }
        n_in * d_b < n_out * d_a
    }

    /// Slab test: the ray runs through the box over an interval of positive
    /// length inside `(time_min, time_max)`; `None` leaves it unbounded above.
    pub fn hit(&self, r: &Ray, time_min: i64, time_max: Option<i64>) -> (res: bool)
        ensures
            res == self.hit_spec(*r, time_min as int, match time_max {
                Some(t) => Some(t as int),
                None => None,
            }),
    {
        if let Some(t1) = time_max {
            if t1 <= time_min {
                return false;
            }
        }
        let res = self.axis_ok(r, time_min, time_max, Axis::X)
            && self.axis_ok(r, time_min, time_max, Axis::Y)
            && self.axis_ok(r, time_min, time_max, Axis::Z)
            && self.pair_ok(r, Axis::X, Axis::X)
            && self.pair_ok(r, Axis::X, Axis::Y)
            && self.pair_ok(r, Axis::X, Axis::Z)
            && self.pair_ok(r, Axis::Y, Axis::X)
            && self.pair_ok(r, Axis::Y, Axis::Y)
            && self.pair_ok(r, Axis::Y, Axis::Z)
            && self.pair_ok(r, Axis::Z, Axis::X)
            && self.pair_ok(r, Axis::Z, Axis::Y)
            && self.pair_ok(r, Axis::Z, Axis::Z);
        proof {
            let tm = match time_max {
                Some(t) => Some(t as int),
                None => None,
            };
            if res {
                assert forall|a: Axis, b: Axis| r.direction.at(a) != 0 && r.direction.at(b) != 0
                    implies #[trigger] frac_lt(self.entry(*r, a), self.exit(*r, b)) by {
                    match a {
                        Axis::X => match b { Axis::X => {}, Axis::Y => {}, Axis::Z => {} },
                        Axis::Y => match b { Axis::X => {}, Axis::Y => {}, Axis::Z => {} },
                        Axis::Z => match b { Axis::X => {}, Axis::Y => {}, Axis::Z => {} },
                    }
                }
                assert forall|a: Axis| #[trigger] r.direction.at(a) == 0
                    implies self.lo(a) <= r.origin.at(a) <= self.hi(a) by {
                    match a { Axis::X => {}, Axis::Y => {}, Axis::Z => {} }
                }
                assert forall|a: Axis| #[trigger] r.direction.at(a) != 0
                    implies frac_lt((time_min as int, 1), self.exit(*r, a)) by {
                    match a { Axis::X => {}, Axis::Y => {}, Axis::Z => {} }
                }
                assert forall|a: Axis| #[trigger] r.direction.at(a) != 0 && tm is Some
                    implies frac_lt(self.entry(*r, a), (tm->0, 1)) by {
                    match a { Axis::X => {}, Axis::Y => {}, Axis::Z => {} }
                }
            }
        }
        res
    }

    /// Surface area, `2(ab + bc + ca)` over the three edge lengths.
    pub fn area(&self) -> (r: i128)
        ensures
            r as int == self.area_spec(),
            -0x8_0000_0000_0000_0000 <= r <= 0x8_0000_0000_0000_0000,
    {
        let a = self.max.x as i128 - self.min.x as i128;
        let b = self.max.y as i128 - self.min.y as i128;
        let c = self.max.z as i128 - self.min.z as i128;
        proof {
            lemma_edge_product(a as int, b as int);
            lemma_edge_product(b as int, c as int);
            lemma_edge_product(c as int, a as int);
        }
        2 * (a * b + b * c + c * a)
    }
}

/// The smallest box that encloses both boxes.
pub fn surrounding_box(box0: &AABB, box1: &AABB) -> (r: AABB)
    ensures
        r == union(*box0, *box1),
{
    let small = Vec3 {
        x: if box0.min.x < box1.min.x { box0.min.x } else { box1.min.x },
        y: if box0.min.y < box1.min.y { box0.min.y } else { box1.min.y },
        z: if box0.min.z < box1.min.z { box0.min.z } else { box1.min.z },
    };
    let big = Vec3 {
        x: if box0.max.x > box1.max.x { box0.max.x } else { box1.max.x },
        y: if box0.max.y > box1.max.y { box0.max.y } else { box1.max.y },
        z: if box0.max.z > box1.max.z { box0.max.z } else { box1.max.z },
    };
    AABB { min: small, max: big }
}

/// The union of two boxes encloses both, is enclosed by every box that
/// encloses both (so no tighter box exists), and does not depend on the
/// order of its arguments; it is well formed when both boxes are.
pub proof fn lemma_union_least(a: AABB, b: AABB, c: AABB)
    ensures
        union(a, b).contains(a),
        union(a, b).contains(b),
        c.contains(a) && c.contains(b) ==> c.contains(union(a, b)),
        union(a, b) == union(b, a),
        a.wf() && b.wf() ==> union(a, b).wf(),
{
    let u = union(a, b);
    assert forall|ax: Axis| #[trigger] u.lo(ax) <= a.lo(ax) && a.hi(ax) <= u.hi(ax) by {
        match ax { Axis::X => {}, Axis::Y => {}, Axis::Z => {} }
    }
    assert forall|ax: Axis| #[trigger] u.lo(ax) <= b.lo(ax) && b.hi(ax) <= u.hi(ax) by {
        match ax { Axis::X => {}, Axis::Y => {}, Axis::Z => {} }
    }
    if c.contains(a) && c.contains(b) {
        assert forall|ax: Axis| #[trigger] c.lo(ax) <= u.lo(ax) && u.hi(ax) <= c.hi(ax) by {
            assert(c.lo(ax) <= a.lo(ax) && a.hi(ax) <= c.hi(ax));
            assert(c.lo(ax) <= b.lo(ax) && b.hi(ax) <= c.hi(ax));
            match ax { Axis::X => {}, Axis::Y => {}, Axis::Z => {} }
        }
    }
    if a.wf() && b.wf() {
        assert forall|ax: Axis| #[trigger] u.min.at(ax) <= u.max.at(ax) by {
            assert(a.min.at(ax) <= a.max.at(ax));
            match ax { Axis::X => {}, Axis::Y => {}, Axis::Z => {} }
        }
    }
}

/// A ray whose origin lies strictly inside a box hits it over `(0, oo)`.
pub proof fn lemma_inside_origin_hits(b: AABB, r: Ray)
    requires
        forall|ax: Axis| b.lo(ax) < #[trigger] r.origin.at(ax) < b.hi(ax),
    ensures
        b.hit_spec(r, 0, None),
{
    assert forall|ax: Axis| #[trigger] r.direction.at(ax) != 0
        implies b.entry(r, ax).0 < 0 && b.entry(r, ax).1 > 0 && b.exit(r, ax).0 > 0
        && b.exit(r, ax).1 > 0 by {
        assert(b.lo(ax) < r.origin.at(ax) < b.hi(ax));
    }
    assert forall|x: Axis, y: Axis| r.direction.at(x) != 0 && r.direction.at(y) != 0
        implies #[trigger] frac_lt(b.entry(r, x), b.exit(r, y)) by {
        let p = b.entry(r, x);
        let q = b.exit(r, y);
        assert(p.0 < 0 && p.1 > 0 && q.0 > 0 && q.1 > 0);
        assert(p.0 * q.1 < q.0 * p.1) by (nonlinear_arith)
            requires p.0 < 0 && p.1 > 0 && q.0 > 0 && q.1 > 0;
    }
    assert forall|ax: Axis| #[trigger] r.direction.at(ax) != 0
        implies frac_lt((0, 1), b.exit(r, ax)) by {
        assert(b.exit(r, ax).0 > 0);
    }
    assert forall|ax: Axis| #[trigger] r.direction.at(ax) == 0
        implies b.lo(ax) <= r.origin.at(ax) <= b.hi(ax) by {
        assert(b.lo(ax) < r.origin.at(ax) < b.hi(ax));
    }
}

/// Hitting a box implies hitting every box that encloses it.
pub proof fn lemma_hit_enclosing(inner: AABB, outer: AABB, r: Ray, tmin: int, tmax: Option<int>)
    requires
        outer.contains(inner),
        inner.hit_spec(r, tmin, tmax),
    ensures
        outer.hit_spec(r, tmin, tmax),
{
    assert forall|ax: Axis| #[trigger] r.direction.at(ax) != 0 implies
        outer.entry(r, ax).0 <= inner.entry(r, ax).0 && outer.entry(r, ax).1 == inner.entry(r, ax).1
        && inner.exit(r, ax).0 <= outer.exit(r, ax).0 && outer.exit(r, ax).1 == inner.exit(r, ax).1
        && inner.exit(r, ax).1 > 0 by {
        assert(outer.lo(ax) <= inner.lo(ax) && inner.hi(ax) <= outer.hi(ax));
    }
    assert forall|ax: Axis| #[trigger] r.direction.at(ax) == 0
        implies outer.lo(ax) <= r.origin.at(ax) <= outer.hi(ax) by {
        assert(outer.lo(ax) <= inner.lo(ax) && inner.hi(ax) <= outer.hi(ax));
    }
    assert forall|ax: Axis| #[trigger] r.direction.at(ax) != 0
        implies frac_lt((tmin, 1), outer.exit(r, ax)) by {
        assert(frac_lt((tmin, 1), inner.exit(r, ax)));
    }
    assert forall|ax: Axis| #[trigger] r.direction.at(ax) != 0 && tmax is Some
        implies frac_lt(outer.entry(r, ax), (tmax->0, 1)) by {
        assert(frac_lt(inner.entry(r, ax), (tmax->0, 1)));
    }
    assert forall|x: Axis, y: Axis| r.direction.at(x) != 0 && r.direction.at(y) != 0
        implies #[trigger] frac_lt(outer.entry(r, x), outer.exit(r, y)) by {
        let p = inner.entry(r, x);
        let q = inner.exit(r, y);
        let p2 = outer.entry(r, x);
        let q2 = outer.exit(r, y);
        assert(frac_lt(p, q));
        assert(p2.0 * q2.1 < q2.0 * p2.1) by (nonlinear_arith)
            requires
                p.0 * q.1 < q.0 * p.1,
                p2.0 <= p.0, p2.1 == p.1, q.0 <= q2.0, q2.1 == q.1, p.1 > 0, q.1 > 0;
    }
}

/// Enclosure is transitive.
pub proof fn lemma_contains_trans(a: AABB, b: AABB, c: AABB)
    requires
        a.contains(b),
        b.contains(c),
    ensures
        a.contains(c),
{
    assert forall|ax: Axis| #[trigger] a.lo(ax) <= c.lo(ax) && c.hi(ax) <= a.hi(ax) by {
        assert(a.lo(ax) <= b.lo(ax) && b.hi(ax) <= a.hi(ax));
        assert(b.lo(ax) <= c.lo(ax) && c.hi(ax) <= b.hi(ax));
    }
}

} // verus!
