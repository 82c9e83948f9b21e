use raytracer::aabb::{surrounding_box, AABB};
use raytracer::ray::Ray;
use raytracer::vector::{Axis, Vec3};

fn v(x: i32, y: i32, z: i32) -> Vec3 {
    Vec3::new(x, y, z)
}

fn cube(lo: i32, hi: i32) -> AABB {
    AABB::new(v(lo, lo, lo), v(hi, hi, hi))
}

#[test]
fn union_encloses_both_and_commutes() {
    let a = AABB::new(v(0, -3, 2), v(4, 1, 5));
    let b = AABB::new(v(-2, 0, 3), v(1, 6, 9));
    let u = surrounding_box(&a, &b);
    assert_eq!(u.min(), v(-2, -3, 2));
    assert_eq!(u.max(), v(4, 6, 9));
    assert_eq!(surrounding_box(&b, &a), u);
}

#[test]
fn union_of_nested_boxes_is_the_outer_one() {
    let outer = cube(-5, 5);
    let inner = cube(-1, 2);
    assert_eq!(surrounding_box(&outer, &inner), outer);
    assert_eq!(surrounding_box(&inner, &outer), outer);
}

#[test]
fn zero_box_is_the_origin() {
    let z = AABB::zero();
    assert_eq!(z.min(), v(0, 0, 0));
    assert_eq!(z.max(), v(0, 0, 0));
    assert_eq!(z.area(), 0);
}

#[test]
fn area_of_edges_one_two_three() {
    let b = AABB::new(v(0, 0, 0), v(1, 2, 3));
    assert_eq!(b.area(), 22);
}

#[test]
fn area_of_largest_grid_box() {
    let b = AABB::new(v(i32::MIN, i32::MIN, i32::MIN), v(i32::MAX, i32::MAX, i32::MAX));
    let e: i128 = (i32::MAX as i128) - (i32::MIN as i128);
    assert_eq!(b.area(), 6 * e * e);
}

#[test]
fn longest_axis_and_ties() {
    assert_eq!(AABB::new(v(0, 0, 0), v(3, 2, 1)).longest_axis(), Axis::X);
    assert_eq!(AABB::new(v(0, 0, 0), v(1, 3, 2)).longest_axis(), Axis::Y);
    assert_eq!(AABB::new(v(0, 0, 0), v(1, 2, 3)).longest_axis(), Axis::Z);
    assert_eq!(AABB::new(v(0, 0, 0), v(2, 2, 1)).longest_axis(), Axis::X);
    assert_eq!(AABB::new(v(0, 0, 0), v(2, 1, 2)).longest_axis(), Axis::X);
    assert_eq!(AABB::new(v(0, 0, 0), v(1, 2, 2)).longest_axis(), Axis::Y);
    assert_eq!(AABB::new(v(0, 0, 0), v(2, 2, 2)).longest_axis(), Axis::X);
    assert_eq!(AABB::new(v(0, 0, 0), v(1, 1, 0)).longest_axis(), Axis::X);
}

#[test]
fn ray_along_x_hits_box() {
    let b = cube(0, 2);
    let r = Ray::new(v(-1, 1, 1), v(1, 0, 0));
    assert!(b.hit(&r, 0, None));
    assert!(b.hit(&r, 0, Some(2)));
    assert!(!b.hit(&r, 0, Some(1)));
    assert!(!b.hit(&r, 3, None));
    assert!(b.hit(&r, 2, Some(5)));
}

#[test]
fn diagonal_and_reversed_rays() {
    let b = cube(0, 2);
    assert!(b.hit(&Ray::new(v(-1, -1, -1), v(1, 1, 1)), 0, None));
    assert!(b.hit(&Ray::new(v(5, 1, 1), v(-1, 0, 0)), 0, None));
    assert!(!b.hit(&Ray::new(v(5, 1, 1), v(1, 0, 0)), 0, None));
    assert!(b.hit(&Ray::new(v(-1, 3, 1), v(1, -1, 0)), 0, None));
}

#[test]
fn ray_touching_an_edge_only_misses() {
    let b = cube(0, 2);
    assert!(!b.hit(&Ray::new(v(-2, 0, 1), v(1, 1, 0)), 0, None));
}

#[test]
fn ray_parallel_to_a_slab_outside_it_misses() {
    let b = cube(0, 2);
    assert!(!b.hit(&Ray::new(v(-1, 5, 1), v(1, 0, 0)), 0, None));
    assert!(!b.hit(&Ray::new(v(-1, 1, -4), v(1, 0, 0)), 0, None));
}

#[test]
fn empty_time_interval_misses() {
    let b = cube(0, 2);
    let r = Ray::new(v(-1, 1, 1), v(1, 0, 0));
    assert!(!b.hit(&r, 4, Some(4)));
    assert!(!b.hit(&r, 5, Some(1)));
}

#[test]
fn origin_inside_box_hits_in_any_direction() {
    let b = AABB::new(v(-3, -2, -1), v(4, 5, 6));
    let o = v(1, 1, 1);
    for d in [v(1, 0, 0), v(0, -1, 0), v(0, 0, 7), v(-3, 5, 2), v(0, 0, 0)] {
        assert!(b.hit(&Ray::new(o, d), 0, None));
    }
}

#[test]
fn point_at_parameter_steps_along_direction() {
    let r = Ray::new(v(1, 2, 3), v(-1, 0, 2));
    assert_eq!(r.point_at_parameter(4), v(-3, 2, 11));
    assert_eq!(r.point_at_parameter(0), v(1, 2, 3));
    assert_eq!(r.origin(), v(1, 2, 3));
    assert_eq!(r.direction(), v(-1, 0, 2));
}

#[test]
fn vector_coordinate_by_axis() {
    let p = v(7, -8, 9);
    assert_eq!(p.get(Axis::X), 7);
    assert_eq!(p.get(Axis::Y), -8);
    assert_eq!(p.get(Axis::Z), 9);
}
