use raytracer::aabb::{surrounding_box, AABB};
use raytracer::bvh::{sah_split, split, BVHNode, Child};
use raytracer::hits::{closer, HitInfo};
use raytracer::integrator::{after_bounce, shade, Outcome, Shade, MAX_DEPTH};
use raytracer::ray::Ray;
use raytracer::scene::Scene;
use raytracer::vector::Vec3;

fn v(x: i32, y: i32, z: i32) -> Vec3 {
    Vec3::new(x, y, z)
}

/// Boxes spread along X, listed out of order: x in [20,21], [0,1], [10,11].
fn three_boxes() -> Vec<AABB> {
    vec![
        AABB::new(v(20, 0, 0), v(21, 2, 2)),
        AABB::new(v(0, 0, 0), v(1, 2, 2)),
        AABB::new(v(10, 0, 0), v(11, 2, 2)),
    ]
}

fn leaves_of(tree: &BVHNode, c: Child, out: &mut Vec<usize>) {
    match c {
        Child::Leaf(i) => out.push(i),
        Child::Inner(k) => {
            leaves_of(tree, tree.nodes[k].left, out);
            leaves_of(tree, tree.nodes[k].right, out);
        }
    }
}

#[test]
fn sah_split_picks_cheapest() {
    assert_eq!(sah_split(&vec![6, 46], &vec![0, 46, 6]), 1);
    assert_eq!(sah_split(&vec![5, 7, 9], &vec![0, 100, 1, 1]), 1);
}

#[test]
fn sah_split_tie_goes_to_first() {
    assert_eq!(sah_split(&vec![1, 1], &vec![0, 1, 1]), 0);
    assert_eq!(sah_split(&vec![4], &vec![0, 4]), 0);
}

#[test]
fn split_puts_smallest_min_x_on_the_left() {
    let tree = BVHNode::new(three_boxes());
    assert_eq!(tree.root, Child::Inner(1));
    let root = tree.nodes[1];
    assert_eq!(root.left, Child::Inner(0));
    assert_eq!(root.right, Child::Leaf(0));
    assert_eq!(tree.nodes[0].left, Child::Leaf(1));
    assert_eq!(tree.nodes[0].right, Child::Leaf(2));
    let mut left = Vec::new();
    leaves_of(&tree, root.left, &mut left);
    assert!(left.contains(&1));
}

#[test]
fn root_box_is_union_of_inputs() {
    let boxes = vec![
        AABB::new(v(3, -4, 0), v(5, -1, 2)),
        AABB::new(v(-7, 2, 1), v(-6, 3, 8)),
        AABB::new(v(0, 0, -9), v(1, 1, -8)),
        AABB::new(v(2, 2, 2), v(2, 2, 2)),
    ];
    let mut expected = boxes[0];
    for b in &boxes[1..] {
        expected = surrounding_box(&expected, b);
    }
    let tree = BVHNode::new(boxes);
    assert_eq!(tree.bounding_box(), AABB::new(v(-7, -4, -9), v(5, 3, 8)));
    assert_eq!(tree.bbox, expected);
    let mut all = Vec::new();
    leaves_of(&tree, tree.root, &mut all);
    all.sort();
    assert_eq!(all, vec![0, 1, 2, 3]);
}

#[test]
fn single_primitive_tree_is_a_leaf() {
    let b = AABB::new(v(1, 1, 1), v(2, 3, 4));
    let tree = BVHNode::new(vec![b]);
    assert_eq!(tree.root, Child::Leaf(0));
    assert!(tree.nodes.is_empty());
    assert_eq!(tree.bbox, b);
}

#[test]
fn every_primitive_is_one_leaf() {
    let mut boxes = Vec::new();
    for i in 0..9 {
        boxes.push(AABB::new(v(i * 3 % 7, i, -i), v(i * 3 % 7 + 1, i + 2, -i + 1)));
    }
    let tree = BVHNode::new(boxes);
    let mut all = Vec::new();
    leaves_of(&tree, tree.root, &mut all);
    all.sort();
    assert_eq!(all, (0..9).collect::<Vec<usize>>());
    assert_eq!(tree.nodes.len(), 8);
}

#[test]
fn hierarchy_and_scan_agree() {
    let boxes = three_boxes();
    let mut scene = Scene::new();
    for b in &boxes {
        scene.add(*b);
    }
    let tree = BVHNode::new(boxes);
    let r = Ray::new(v(-5, 1, 1), v(1, 0, 0));
    let ts = vec![Some(25), Some(5), Some(15)];
    let a = tree.hit(&r, 0, 1000, &ts);
    let b = scene.hit(&ts, 0, 1000);
    assert_eq!(a, Some(HitInfo { time: 5, prim: 1 }));
    assert_eq!(b, Some(HitInfo { time: 5, prim: 1 }));
    let ts = vec![Some(25), None, Some(15)];
    assert_eq!(tree.hit(&r, 0, 1000, &ts).map(|h| h.time), Some(15));
    assert_eq!(scene.hit(&ts, 0, 1000).map(|h| h.time), Some(15));
    let ts = vec![None, None, None];
    assert_eq!(tree.hit(&r, 0, 1000, &ts), None);
    assert_eq!(scene.hit(&ts, 0, 1000), None);
}

#[test]
fn hierarchy_prunes_boxes_the_ray_misses() {
    let tree = BVHNode::new(three_boxes());
    let r = Ray::new(v(-5, 10, 1), v(1, 0, 0));
    let ts = vec![Some(25), Some(5), Some(15)];
    assert_eq!(tree.hit(&r, 0, 1000, &ts), None);
}

#[test]
fn scan_keeps_first_of_equal_hits_and_respects_bounds() {
    let mut scene = Scene::new();
    for _ in 0..4 {
        scene.add(AABB::zero());
    }
    let ts = vec![Some(9), Some(3), Some(3), Some(1)];
    assert_eq!(scene.hit(&ts, 0, 100), Some(HitInfo { time: 1, prim: 3 }));
    assert_eq!(scene.hit(&ts, 1, 100), Some(HitInfo { time: 3, prim: 1 }));
    assert_eq!(scene.hit(&ts, 0, 3), Some(HitInfo { time: 1, prim: 3 }));
    assert_eq!(scene.hit(&ts, 1, 3), None);
}

#[test]
fn scene_bounding_box() {
    let mut scene = Scene::new();
    assert_eq!(scene.bounding_box(), None);
    scene.add(AABB::new(v(0, 0, 0), v(1, 1, 1)));
    scene.add(AABB::new(v(-2, 3, 0), v(-1, 4, 5)));
    assert_eq!(scene.bounding_box(), Some(AABB::new(v(-2, 0, 0), v(1, 4, 5))));
}

#[test]
fn closer_prefers_smaller_time_and_second_on_tie() {
    let a = Some(HitInfo { time: 4, prim: 0 });
    let b = Some(HitInfo { time: 2, prim: 1 });
    let c = Some(HitInfo { time: 4, prim: 2 });
    assert_eq!(closer(a, b), b);
    assert_eq!(closer(b, a), b);
    assert_eq!(closer(a, c), c);
    assert_eq!(closer(a, None), a);
    assert_eq!(closer(None, b), b);
    assert_eq!(closer(None, None), None);
}

#[test]
fn depth_cap_gives_sentinel() {
    assert_eq!(shade(true, MAX_DEPTH), Shade::Sentinel);
    assert_eq!(shade(true, 100), Shade::Sentinel);
    assert_eq!(shade(true, 250), Shade::Sentinel);
}

#[test]
fn miss_and_scatter_steps() {
    assert_eq!(shade(false, 0), Shade::Background);
    assert_eq!(shade(false, 100), Shade::Background);
    assert_eq!(shade(true, 0), Shade::Scatter);
    assert_eq!(shade(true, 99), Shade::Scatter);
    assert_eq!(after_bounce(true, 99), Outcome::Recurse(100));
    assert_eq!(after_bounce(true, 0), Outcome::Recurse(1));
    assert_eq!(after_bounce(false, 5), Outcome::Absorbed);
}

#[test]
fn split_sorts_on_longest_axis_and_cuts_at_cheapest() {
    let boxes = three_boxes();
    let (left, right) = split(&boxes, &vec![0, 1, 2]);
    assert_eq!(left, vec![1, 2]);
    assert_eq!(right, vec![0]);
}

#[test]
fn split_uses_longest_axis_of_the_union() {
    // spread along Z, not X: x in [0,3] for all, z far apart
    let boxes = vec![
        AABB::new(v(0, 0, 50), v(1, 1, 51)),
        AABB::new(v(2, 0, 0), v(3, 1, 1)),
        AABB::new(v(1, 0, 100), v(2, 1, 101)),
        AABB::new(v(0, 0, 49), v(1, 1, 50)),
    ];
    let (left, right) = split(&boxes, &vec![0, 1, 2, 3]);
    let mut order = left.clone();
    order.extend(right.iter().copied());
    assert_eq!(order, vec![1, 3, 0, 2]);
    // left unions: [1]=6, [1,3]: 3x1x50 -> 2*(3+50+150)=406, [1,3,0]: 3x1x51 -> 2*(3+51+153)=414
    // right unions: [3,0,2]: 2x1x52 -> 2*(2+52+104)=316, [0,2]: 2x1x51 -> 2*(2+51+102)=310, [2]=6
    // costs: 0*6+3*316=948, 1*406+2*310=1026, 2*414+1*6=834
    assert_eq!(left, vec![1, 3, 0]);
    assert_eq!(right, vec![2]);
}

#[test]
fn split_keeps_order_of_equal_keys() {
    let b = AABB::new(v(0, 0, 0), v(1, 1, 1));
    let boxes = vec![b, b, b];
    let (left, right) = split(&boxes, &vec![2, 0, 1]);
    let mut order = left.clone();
    order.extend(right.iter().copied());
    assert_eq!(order, vec![2, 0, 1]);
    // all costs: 0*6+2*6=12, 1*6+1*6=12: the first wins
    assert_eq!(left, vec![2]);
}

#[test]
fn split_on_tied_axes_takes_x() {
    // the union is 11 long on both X and Y: X is taken, so the box lowest in X comes first
    let boxes = vec![
        AABB::new(v(10, 0, 0), v(11, 1, 1)),
        AABB::new(v(0, 10, 0), v(1, 11, 1)),
    ];
    let (left, right) = split(&boxes, &vec![0, 1]);
    assert_eq!(left, vec![1]);
    assert_eq!(right, vec![0]);
}
