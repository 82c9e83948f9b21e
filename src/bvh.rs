//! Bounding volume hierarchy over primitives known by their boxes, stored
//! as an arena of nodes and built with the surface-area heuristic.
use vstd::prelude::*;
use crate::vector::Axis;
use crate::ray::Ray;
use crate::hits::{HitInfo, valid_t, nearer, time_of, closer};
use crate::aabb::{lemma_hit_enclosing, AABB, union, surrounding_box, lemma_union_least, lemma_contains_trans};

verus! {

/// The union of a non-empty sequence of boxes, folded from the left.
pub open spec fn union_all(bs: Seq<AABB>) -> AABB
    decreases bs.len(),
{
    if bs.len() <= 1 {
        bs[0]
    } else {
        union(union_all(bs.drop_last()), bs.last())
    }
}

/// The boxes of the primitives listed in `ids`, in that order.
pub open spec fn boxes_of(boxes: Seq<AABB>, ids: Seq<usize>) -> Seq<AABB> {
    ids.map_values(|i: usize| boxes[i as int])
}

/// Split cost of cutting `n` sorted primitives after position `i`, from the
/// areas of the growing left unions `la` and shrinking right unions `ra`.
pub open spec fn sah_cost(la: Seq<i128>, ra: Seq<i128>, i: int) -> int {
    i * la[i] + (ra.len() - 1 - i) * ra[i + 1]
}

/// The union of the listed boxes encloses each of them and is enclosed by
/// every box that encloses them all.
pub proof fn lemma_union_all_least(bs: Seq<AABB>, c: AABB)
    requires
        bs.len() >= 1,
    ensures
        forall|i: int| 0 <= i < bs.len() ==> union_all(bs).contains(#[trigger] bs[i]),
        (forall|i: int| 0 <= i < bs.len() ==> c.contains(#[trigger] bs[i])) ==> c.contains(
            union_all(bs),
        ),
        (forall|i: int| 0 <= i < bs.len() ==> (#[trigger] bs[i]).wf()) ==> union_all(bs).wf(),
    decreases bs.len(),
{
    if bs.len() > 1 {
        let init = bs.drop_last();
        lemma_union_all_least(init, c);
        lemma_union_least(union_all(init), bs.last(), c);
        let u = union_all(bs);
        assert forall|i: int| 0 <= i < bs.len() implies u.contains(#[trigger] bs[i]) by {
            if i < bs.len() - 1 {
                assert(init[i] == bs[i]);
                lemma_contains_trans(u, union_all(init), bs[i]);
            }
        }
        if forall|i: int| 0 <= i < bs.len() ==> c.contains(#[trigger] bs[i]) {
            assert forall|i: int| 0 <= i < init.len() implies c.contains(#[trigger] init[i]) by {
                assert(init[i] == bs[i]);
            }
        }
        if forall|i: int| 0 <= i < bs.len() ==> (#[trigger] bs[i]).wf() {
            assert forall|i: int| 0 <= i < init.len() implies (#[trigger] init[i]).wf() by {
                assert(init[i] == bs[i]);
            }
        }
    }
}

/// The union of the boxes of the listed primitives.
fn union_of(boxes: &Vec<AABB>, ids: &Vec<usize>) -> (r: AABB)
    requires
        ids.len() >= 1,
        forall|k: int| 0 <= k < ids.len() ==> (#[trigger] ids[k]) < boxes.len(),
    ensures
        r == union_all(boxes_of(boxes@, ids@)),
{
    let ghost bs = boxes_of(boxes@, ids@);
    let mut acc = boxes[ids[0]];
    let mut i: usize = 1;
    assert(bs.subrange(0, 1).drop_last().len() == 0);
    while i < ids.len()
        invariant
            1 <= i <= ids.len(),
            bs == boxes_of(boxes@, ids@),
            forall|k: int| 0 <= k < ids.len() ==> (#[trigger] ids[k]) < boxes.len(),
            acc == union_all(bs.subrange(0, i as int)),
        decreases ids.len() - i,
    {
        let b = boxes[ids[i]];
        acc = surrounding_box(&acc, &b);
        assert(bs.subrange(0, i + 1).drop_last() =~= bs.subrange(0, i as int));
        i = i + 1;
    }
    assert(bs.subrange(0, i as int) =~= bs);
    acc
}

/// Index of the cheapest split, the first one on a tie: cutting after
/// position `i` costs `i * la[i] + (n - 1 - i) * ra[i + 1]` for `n` primitives.
pub fn sah_split(la: &Vec<i128>, ra: &Vec<i128>) -> (r: usize)
    requires
        la.len() >= 1,
        ra.len() == la.len() + 1,
        ra.len() <= u32::MAX,
        forall|i: int| 0 <= i < la.len() ==> -0x8_0000_0000_0000_0000 <= #[trigger] la[i]
            <= 0x8_0000_0000_0000_0000,
        forall|i: int| 0 <= i < ra.len() ==> -0x8_0000_0000_0000_0000 <= #[trigger] ra[i]
            <= 0x8_0000_0000_0000_0000,
    ensures
        r < la.len(),
        forall|j: int| 0 <= j < la.len() ==> sah_cost(la@, ra@, r as int) <= sah_cost(la@, ra@, j),
        forall|j: int| 0 <= j < r ==> sah_cost(la@, ra@, r as int) < sah_cost(la@, ra@, j),
{
    let n = ra.len();
    let mut best: usize = 0;
    let mut best_cost: i128 = 0;
    let mut i: usize = 0;
    while i < la.len()
        invariant
            n == ra.len(),
            ra.len() == la.len() + 1,
            ra.len() <= u32::MAX,
            forall|i: int| 0 <= i < la.len() ==> -0x8_0000_0000_0000_0000 <= #[trigger] la[i]
                <= 0x8_0000_0000_0000_0000,
            forall|i: int| 0 <= i < ra.len() ==> -0x8_0000_0000_0000_0000 <= #[trigger] ra[i]
                <= 0x8_0000_0000_0000_0000,
            i <= la.len(),
            best < la.len(),
            i > 0 ==> best < i,
            i > 0 ==> best_cost == sah_cost(la@, ra@, best as int),
            forall|j: int| 0 <= j < i ==> sah_cost(la@, ra@, best as int) <= sah_cost(la@, ra@, j),
            forall|j: int| 0 <= j < best ==> sah_cost(la@, ra@, best as int) < sah_cost(la@, ra@, j),
        decreases la.len() - i,
    {
        let l = la[i];
        let rr = ra[i + 1];
        let k = (n - 1 - i) as i128;
        let ii = i as i128;
        assert(-0x8_0000_0000_0000_0000_0000_0000 <= ii * l <= 0x8_0000_0000_0000_0000_0000_0000)
            by (nonlinear_arith)
            requires
                0 <= ii <= 0x1_0000_0000,
                -0x8_0000_0000_0000_0000 <= l <= 0x8_0000_0000_0000_0000,
        ;
        assert(-0x8_0000_0000_0000_0000_0000_0000 <= k * rr <= 0x8_0000_0000_0000_0000_0000_0000)
            by (nonlinear_arith)
            requires
                0 <= k <= 0x1_0000_0000,
                -0x8_0000_0000_0000_0000 <= rr <= 0x8_0000_0000_0000_0000,
        ;
        let cost = ii * l + k * rr;
        assert(cost == sah_cost(la@, ra@, i as int));
        if i == 0 || cost < best_cost {
            best = i;
            best_cost = cost;
        }
        i = i + 1;
    }
    best
}

/// A child of a node: a primitive, by its index, or an earlier node of the arena.
#[derive(Clone, Copy, Debug, PartialEq, Eq, Structural)]
pub enum Child {
    Leaf(usize),
    Inner(usize),
}

/// An inner node: two children and the box that encloses both.
#[derive(Clone, Copy, Debug, PartialEq, Eq, Structural)]
pub struct Node {
    pub left: Child,
    pub right: Child,
    pub bbox: AABB,
}

/// Arena position plus one of a node, zero for a leaf; children rank lower
/// than their parent, so the arena holds no cycle.
pub open spec fn rank(c: Child) -> int {
    match c {
        Child::Leaf(_) => 0,
        Child::Inner(k) => k + 1,
    }
}

/// A leaf names a primitive; an inner child lies below arena position `bound`.
pub open spec fn child_ok(boxes: Seq<AABB>, c: Child, bound: int) -> bool {
    match c {
        Child::Leaf(i) => i < boxes.len(),
        Child::Inner(k) => k < bound,
    }
}

/// The box of a child: its primitive's box or its node's box.
pub open spec fn child_box(nodes: Seq<Node>, boxes: Seq<AABB>, c: Child) -> AABB {
    match c {
        Child::Leaf(i) => boxes[i as int],
        Child::Inner(k) => nodes[k as int].bbox,
    }
}

/// Node `k` points to earlier nodes or to primitives, and its box encloses
/// the boxes of both children.
pub open spec fn node_ok(nodes: Seq<Node>, boxes: Seq<AABB>, k: int) -> bool {
    let n = nodes[k];
    &&& child_ok(boxes, n.left, k)
    &&& child_ok(boxes, n.right, k)
    &&& n.bbox.contains(child_box(nodes, boxes, n.left))
    &&& n.bbox.contains(child_box(nodes, boxes, n.right))
}

pub open spec fn nodes_wf(nodes: Seq<Node>, boxes: Seq<AABB>) -> bool {
    forall|k: int| 0 <= k < nodes.len() ==> #[trigger] node_ok(nodes, boxes, k)
}

/// The primitives reachable from a child.
pub open spec fn leaves(nodes: Seq<Node>, c: Child) -> Set<usize>
    decreases rank(c),
{
    match c {
        Child::Leaf(i) => set![i],
        Child::Inner(k) => if k < nodes.len() && rank(nodes[k as int].left) <= k && rank(
            nodes[k as int].right,
        ) <= k {
            leaves(nodes, nodes[k as int].left) + leaves(nodes, nodes[k as int].right)
        } else {
            Set::empty()
        },
    }
}

/// Nodes appended to the arena change nothing below the old length.
proof fn lemma_prefix(short: Seq<Node>, long: Seq<Node>, boxes: Seq<AABB>, c: Child)
    requires
        short.len() <= long.len(),
        long.subrange(0, short.len() as int) == short,
        rank(c) <= short.len(),
        nodes_wf(short, boxes),
    ensures
        leaves(short, c) == leaves(long, c),
        child_box(short, boxes, c) == child_box(long, boxes, c),
    decreases rank(c),
{
    if let Child::Inner(k) = c {
        assert(short[k as int] == long[k as int]);
        assert(node_ok(short, boxes, k as int));
        lemma_prefix(short, long, boxes, short[k as int].left);
        lemma_prefix(short, long, boxes, short[k as int].right);
    }
}

/// Appending a node whose children lie in the arena keeps it well formed.
proof fn lemma_push(nodes: Seq<Node>, boxes: Seq<AABB>, n: Node)
    requires
        nodes_wf(nodes, boxes),
        node_ok(nodes.push(n), boxes, nodes.len() as int),
    ensures
        nodes_wf(nodes.push(n), boxes),
{
    let long = nodes.push(n);
    assert forall|k: int| 0 <= k < long.len() implies #[trigger] node_ok(long, boxes, k) by {
        if k < nodes.len() {
            assert(node_ok(nodes, boxes, k));
            assert(long[k] == nodes[k]);
            let nd = nodes[k];
            assert(child_box(nodes, boxes, nd.left) == child_box(long, boxes, nd.left));
            assert(child_box(nodes, boxes, nd.right) == child_box(long, boxes, nd.right));
        }
    }
}

/// The primitives of `ids`, ordered by the low corner of their boxes on
/// `axis`; equal keys keep their order.
fn sort_by_min(boxes: &Vec<AABB>, ids: &Vec<usize>, axis: Axis) -> (out: Vec<usize>)
    requires
        forall|k: int| 0 <= k < ids.len() ==> (#[trigger] ids[k]) < boxes.len(),
    ensures
        out.len() == ids.len(),
        forall|x: usize| out@.contains(x) <==> ids@.contains(x),
        forall|k: int| 0 <= k < out.len() ==> (#[trigger] out[k]) < boxes.len(),
        forall|a: int, b: int|
            #![trigger out[a], out[b]]
            0 <= a < b < out.len() ==> boxes@[out[a] as int].lo(axis) <= boxes@[out[b] as int].lo(axis),
{
    let mut out: Vec<usize> = Vec::new();
    let mut i: usize = 0;
    while i < ids.len()
        invariant
            i <= ids.len(),
            out.len() == i,
            forall|k: int| 0 <= k < ids.len() ==> (#[trigger] ids[k]) < boxes.len(),
            forall|x: usize| out@.contains(x) <==> ids@.subrange(0, i as int).contains(x),
            forall|k: int| 0 <= k < out.len() ==> (#[trigger] out[k]) < boxes.len(),
            forall|a: int, b: int|
                #![trigger out[a], out[b]]
                0 <= a < b < out.len() ==> boxes@[out[a] as int].lo(axis) <= boxes@[out[b] as int].lo(axis),
        decreases ids.len() - i,
    {
        let x = ids[i];
        let key = boxes[x].min.get(axis);
        let mut p: usize = 0;
        while p < out.len() && boxes[out[p]].min.get(axis) <= key
            invariant
                p <= out.len(),
                forall|k: int| 0 <= k < out.len() ==> (#[trigger] out[k]) < boxes.len(),
                forall|k: int| 0 <= k < p ==> boxes@[out[k] as int].lo(axis) <= key,
            decreases out.len() - p,
        {
            p = p + 1;
        }
        let ghost before = out@;
        out.insert(p, x);
        proof {
            let prev = ids@.subrange(0, i as int);
            let next = ids@.subrange(0, i + 1);
            assert(next == prev.push(x));
            assert forall|y: usize| out@.contains(y) <==> next.contains(y) by {
                if out@.contains(y) {
                    let k = choose|k: int| 0 <= k < out@.len() && out@[k] == y;
                    if k < p {
                        assert(before[k] == y);
                    } else if k > p {
                        assert(before[k - 1] == y);
                    }
                    if y != x {
                        assert(before.contains(y));
                        let j = choose|j: int| 0 <= j < prev.len() && prev[j] == y;
                        assert(next[j] == y);
                    } else {
                        assert(next[i as int] == y);
                    }
                }
                if next.contains(y) {
                    let j = choose|j: int| 0 <= j < next.len() && next[j] == y;
                    if j < i {
                        assert(prev[j] == y);
                        assert(before.contains(y));
                        let k = choose|k: int| 0 <= k < before.len() && before[k] == y;
                        if k < p {
                            assert(out@[k] == y);
                        } else {
                            assert(out@[k + 1] == y);
                        }
                    } else {
                        assert(out@[p as int] == y);
                    }
                }
            }
            assert forall|a: int, b: int|
                #![trigger out[a], out[b]]
                0 <= a < b < out.len() implies boxes@[out[a] as int].lo(axis)
                <= boxes@[out[b] as int].lo(axis) by {
                if b < p {
                    assert(out[a] == before[a] && out[b] == before[b]);
                } else if b == p {
                    assert(out[a] == before[a]);
                } else if a == p {
                    assert(out[b] == before[b - 1]);
                    assert(!(boxes@[before[p as int] as int].lo(axis) <= key));
                    if b - 1 > p {
                        assert(boxes@[before[p as int] as int].lo(axis) <= boxes@[before[b - 1] as int].lo(axis));
                    }
                } else if a < p {
                    assert(out[a] == before[a] && out[b] == before[b - 1]);
                    assert(boxes@[before[a] as int].lo(axis) <= key);
                    assert(!(boxes@[before[p as int] as int].lo(axis) <= key));
                    if b - 1 > p {
                        assert(boxes@[before[p as int] as int].lo(axis) <= boxes@[before[b - 1] as int].lo(axis));
                    }
                } else {
                    assert(out[a] == before[a - 1] && out[b] == before[b - 1]);
                }
            }
        }
        i = i + 1;
    }
    assert(ids@.subrange(0, i as int) == ids@);
    out
}

/// Areas of the unions of the first `i + 1` sorted boxes, for every split
/// position `i` below `ids.len() - 1`.
fn left_areas(boxes: &Vec<AABB>, ids: &Vec<usize>) -> (la: Vec<i128>)
    requires
        ids.len() >= 2,
        forall|k: int| 0 <= k < ids.len() ==> (#[trigger] ids[k]) < boxes.len(),
    ensures
        la.len() == ids.len() - 1,
        forall|i: int| 0 <= i < la.len() ==> la[i] == union_all(
            boxes_of(boxes@, ids@).subrange(0, i + 1),
        ).area_spec(),
        forall|i: int| 0 <= i < la.len() ==> -0x8_0000_0000_0000_0000 <= #[trigger] la[i]
            <= 0x8_0000_0000_0000_0000,
{
    let ghost bs = boxes_of(boxes@, ids@);
    let n = ids.len();
    let mut la: Vec<i128> = Vec::new();
    let mut acc = boxes[ids[0]];
    la.push(acc.area());
    let mut i: usize = 1;
    while i < n - 1
        invariant
            n == ids.len(),
            n >= 2,
            1 <= i <= n - 1,
            bs == boxes_of(boxes@, ids@),
            forall|k: int| 0 <= k < ids.len() ==> (#[trigger] ids[k]) < boxes.len(),
            acc == union_all(bs.subrange(0, i as int)),
            la.len() == i,
            forall|j: int| 0 <= j < la.len() ==> la[j] == union_all(bs.subrange(0, j + 1)).area_spec(),
            forall|j: int| 0 <= j < la.len() ==> -0x8_0000_0000_0000_0000 <= #[trigger] la[j]
                <= 0x8_0000_0000_0000_0000,
        decreases n - i,
    {
        acc = surrounding_box(&acc, &boxes[ids[i]]);
        assert(bs.subrange(0, i + 1).drop_last() =~= bs.subrange(0, i as int));
        la.push(acc.area());
        i = i + 1;
    }
    la
}

/// Folding from the right gives the same union as folding from the left.
proof fn lemma_union_all_prepend(bs: Seq<AABB>)
    requires
        bs.len() >= 2,
    ensures
        union_all(bs) == union(bs[0], union_all(bs.drop_first())),
    decreases bs.len(),
{
    if bs.len() == 2 {
        assert(bs.drop_last().len() == 1);
        assert(bs.drop_first().len() == 1);
        assert(bs.drop_first()[0] == bs.last());
        assert(bs.drop_last()[0] == bs[0]);
        assert(union_all(bs.drop_last()) == bs[0]);
        assert(union_all(bs.drop_first()) == bs[1]);
    } else {
        let init = bs.drop_last();
        lemma_union_all_prepend(init);
        assert(init.drop_first() =~= bs.drop_first().drop_last());
        assert(bs.drop_first().last() == bs.last());
        let a = bs[0];
        let b = union_all(init.drop_first());
        let c = bs.last();
        assert(init[0] == a);
        assert(union_all(bs.drop_first()) == union(union_all(bs.drop_first().drop_last()), bs.drop_first().last()));
        assert(union_all(bs.drop_first()) == union(b, c));
        assert(union_all(bs) == union(union_all(init), c));
        assert(union(union(a, b), c) == union(a, union(b, c)));
    }
}

/// Areas of the unions of the sorted boxes from position `i` to the end, for
/// every `i` from 1; the entry at 0 is zero and never read by a split.
fn right_areas(boxes: &Vec<AABB>, ids: &Vec<usize>) -> (ra: Vec<i128>)
    requires
        ids.len() >= 2,
        forall|k: int| 0 <= k < ids.len() ==> (#[trigger] ids[k]) < boxes.len(),
    ensures
        ra.len() == ids.len(),
        ra[0] == 0,
        forall|i: int| 1 <= i < ra.len() ==> ra[i] == union_all(
            boxes_of(boxes@, ids@).subrange(i, ids.len() as int),
        ).area_spec(),
        forall|i: int| 1 <= i < ra.len() ==> -0x8_0000_0000_0000_0000 <= #[trigger] ra[i]
            <= 0x8_0000_0000_0000_0000,
{
    let ghost bs = boxes_of(boxes@, ids@);
    let n = ids.len();
    let mut ra: Vec<i128> = vec![0; n];
    let mut acc = boxes[ids[n - 1]];
    ra.set(n - 1, acc.area());
    let mut i: usize = n - 1;
    assert(bs.subrange(n - 1, n as int).len() == 1);
    while i > 1
        invariant
            n == ids.len(),
            ra.len() == n,
            1 <= i <= n - 1,
            ra[0] == 0,
            bs == boxes_of(boxes@, ids@),
            acc == union_all(bs.subrange(i as int, n as int)),
            forall|j: int| i <= j < n ==> ra[j] == union_all(bs.subrange(j, n as int)).area_spec(),
            forall|k: int| 0 <= k < ids.len() ==> (#[trigger] ids[k]) < boxes.len(),
            forall|j: int| i <= j < n ==> -0x8_0000_0000_0000_0000 <= #[trigger] ra[j]
                <= 0x8_0000_0000_0000_0000,
        decreases i,
    {
        i = i - 1;
        let b = boxes[ids[i]];
        proof {
            let tail = bs.subrange(i as int, n as int);
            lemma_union_all_prepend(tail);
            assert(tail.drop_first() =~= bs.subrange(i + 1, n as int));
            crate::aabb::lemma_union_least(acc, b, acc);
        }
        acc = surrounding_box(&acc, &b);
        ra.set(i, acc.area());
    }
    ra
}

/// Cost of cutting the boxes `bs` after position `i`: `i` times the area of
/// the union up to `i`, plus the number of boxes after the cut times the
/// area of their union.
pub open spec fn split_cost(bs: Seq<AABB>, i: int) -> int {
    i * union_all(bs.subrange(0, i + 1)).area_spec() + (bs.len() - 1 - i) * union_all(
        bs.subrange(i + 1, bs.len() as int),
    ).area_spec()
}

/// `l` and `r` split the primitives `ids` for a node: together they hold
/// `ids` ordered by the low corner of their boxes on the longest axis of the
/// union of those boxes, and the cut between them lies at the first position
/// of least `split_cost`.
pub open spec fn is_split(boxes: Seq<AABB>, ids: Seq<usize>, l: Seq<usize>, r: Seq<usize>) -> bool {
    let s = l + r;
    let axis = union_all(boxes_of(boxes, ids)).longest_axis_spec();
    let bs = boxes_of(boxes, s);
    let m = l.len() - 1;
    &&& 1 <= l.len() && 1 <= r.len()
    &&& s.len() == ids.len()
    &&& forall|x: usize| s.contains(x) <==> ids.contains(x)
    &&& forall|k: int| 0 <= k < s.len() ==> (#[trigger] s[k]) < boxes.len()
    &&& forall|a: int, b: int|
        #![trigger s[a], s[b]]
        0 <= a < b < s.len() ==> boxes[s[a] as int].lo(axis) <= boxes[s[b] as int].lo(axis)
    &&& forall|j: int| 0 <= j < s.len() - 1 ==> split_cost(bs, m) <= split_cost(bs, j)
    &&& forall|j: int| 0 <= j < m ==> split_cost(bs, m) < split_cost(bs, j)
}

/// The subtree at `c` is the one built over the list `ids`: a single
/// primitive is a leaf, and a longer list gives a node with the union of its
/// boxes whose children are built over the two parts of a split.
pub open spec fn built(nodes: Seq<Node>, boxes: Seq<AABB>, c: Child, ids: Seq<usize>) -> bool
    decreases rank(c),
{
    match c {
        Child::Leaf(i) => ids == seq![i],
        Child::Inner(k) => {
            &&& k < nodes.len()
            &&& rank(nodes[k as int].left) <= k
            &&& rank(nodes[k as int].right) <= k
            &&& nodes[k as int].bbox == union_all(boxes_of(boxes, ids))
            &&& exists|l: Seq<usize>, r: Seq<usize>|
                #[trigger] is_split(boxes, ids, l, r) && built(nodes, boxes, nodes[k as int].left, l)
                    && built(nodes, boxes, nodes[k as int].right, r)
        },
    }
}

/// Nodes appended to the arena keep every subtree below the old length built.
proof fn lemma_built_prefix(short: Seq<Node>, long: Seq<Node>, boxes: Seq<AABB>, c: Child, ids: Seq<usize>)
    requires
        short.len() <= long.len(),
        long.subrange(0, short.len() as int) == short,
        built(short, boxes, c, ids),
    ensures
        built(long, boxes, c, ids),
    decreases rank(c),
{
    if let Child::Inner(k) = c {
        assert(short[k as int] == long[k as int]);
        let n = short[k as int];
        let (l, r) = choose|l: Seq<usize>, r: Seq<usize>|
            #[trigger] is_split(boxes, ids, l, r) && built(short, boxes, n.left, l) && built(short, boxes, n.right, r);
        lemma_built_prefix(short, long, boxes, n.left, l);
        lemma_built_prefix(short, long, boxes, n.right, r);
        assert(is_split(boxes, ids, l, r) && built(long, boxes, n.left, l) && built(long, boxes, n.right, r));
    }
}

/// Splits the primitives `ids` in two for a node: they are ordered by the
/// low corner of their boxes on the longest axis of the union of their boxes
/// (equal keys keep their order), and cut after the first position of least
/// `split_cost`.
pub fn split(boxes: &Vec<AABB>, ids: &Vec<usize>) -> (r: (Vec<usize>, Vec<usize>))
    requires
        2 <= ids.len() <= u32::MAX,
        forall|k: int| 0 <= k < ids.len() ==> (#[trigger] ids[k]) < boxes.len(),
    ensures
        is_split(boxes@, ids@, r.0@, r.1@),
{
    let bbox = union_of(boxes, ids);
    let axis = bbox.longest_axis();
    let sorted = sort_by_min(boxes, ids, axis);
    let la = left_areas(boxes, &sorted);
    let ra = right_areas(boxes, &sorted);
    let m = sah_split(&la, &ra);
    let ghost bs = boxes_of(boxes@, sorted@);
    assert forall|i: int| 0 <= i < la.len() implies sah_cost(la@, ra@, i) == split_cost(bs, i) by {}
    let mut left_ids = sorted;
    let right_ids = left_ids.split_off(m + 1);
    assert(left_ids@ + right_ids@ == sorted@);
    (left_ids, right_ids)
}

/// Builds the subtree over `ids`, appending its inner nodes to the arena.
fn build(boxes: &Vec<AABB>, ids: Vec<usize>, nodes: &mut Vec<Node>) -> (c: Child)
    requires
        1 <= ids.len() <= u32::MAX,
        forall|k: int| 0 <= k < ids.len() ==> (#[trigger] ids[k]) < boxes.len(),
        nodes_wf(old(nodes)@, boxes@),
    ensures
        nodes_wf(final(nodes)@, boxes@),
        old(nodes)@.len() <= final(nodes)@.len(),
        final(nodes)@.subrange(0, old(nodes)@.len() as int) == old(nodes)@,
        child_ok(boxes@, c, final(nodes)@.len() as int),
        child_box(final(nodes)@, boxes@, c) == union_all(boxes_of(boxes@, ids@)),
        forall|x: usize| leaves(final(nodes)@, c).contains(x) <==> ids@.contains(x),
        built(final(nodes)@, boxes@, c, ids@),
    decreases ids.len(),
{
    let ghost bs = boxes_of(boxes@, ids@);
    if ids.len() == 1 {
        proof {
            assert forall|x: usize| leaves(nodes@, Child::Leaf(ids[0])).contains(x) <==> ids@.contains(x) by {
                if ids@.contains(x) {
                    let k = choose|k: int| 0 <= k < ids@.len() && ids@[k] == x;
                }
            }
            assert(nodes@.subrange(0, nodes@.len() as int) =~= nodes@);
            assert(ids@ =~= seq![ids[0]]);
        }
        return Child::Leaf(ids[0]);
    }
    let bbox = union_of(boxes, &ids);
    let (left_ids, right_ids) = split(boxes, &ids);
    let ghost sorted = left_ids@ + right_ids@;
    let ghost sorted_seq = sorted;
    assert forall|k: int| 0 <= k < left_ids.len() implies (#[trigger] left_ids[k]) < boxes.len() by {
        assert(sorted[k] == left_ids[k]);
    }
    assert forall|k: int| 0 <= k < right_ids.len() implies (#[trigger] right_ids[k]) < boxes.len() by {
        assert(sorted[left_ids.len() + k] == right_ids[k]);
    }
    let ghost start = nodes@;
    let left = build(boxes, left_ids, nodes);
    let ghost mid = nodes@;
    let right = build(boxes, right_ids, nodes);
    let ghost end = nodes@;
    let node = Node { left, right, bbox };
    proof {
        lemma_prefix(mid, end, boxes@, left);
        assert(end.subrange(0, start.len() as int) =~= start) by {
            assert(mid.subrange(0, start.len() as int) == start);
            assert(end.subrange(0, mid.len() as int) == mid);
        }
        // the node's box encloses every box of the list, hence both unions
        lemma_union_all_least(bs, bbox);
        assert forall|x: usize| sorted.contains(x) implies bbox.contains(#[trigger] boxes@[x as int]) by {
            assert(ids@.contains(x));
            let k = choose|k: int| 0 <= k < ids@.len() && ids@[k] == x;
            assert(bs[k] == boxes@[x as int]);
        }
        let lb = boxes_of(boxes@, left_ids@);
        let rb = boxes_of(boxes@, right_ids@);
        assert forall|i: int| 0 <= i < lb.len() implies bbox.contains(#[trigger] lb[i]) by {
            assert(sorted_seq[i] == left_ids@[i]);
            assert(sorted.contains(left_ids@[i]));
        }
        assert forall|i: int| 0 <= i < rb.len() implies bbox.contains(#[trigger] rb[i]) by {
            assert(sorted_seq[left_ids@.len() + i] == right_ids@[i]);
            assert(sorted.contains(right_ids@[i]));
        }
        lemma_union_all_least(lb, bbox);
        lemma_union_all_least(rb, bbox);
        assert(node_ok(end.push(node), boxes@, end.len() as int)) by {
            assert(end.push(node)[end.len() as int] == node);
            assert(child_box(end.push(node), boxes@, left) == child_box(end, boxes@, left));
            assert(child_box(end.push(node), boxes@, right) == child_box(end, boxes@, right));
        }
        lemma_push(end, boxes@, node);
    }
    nodes.push(node);
    let k = nodes.len() - 1;
    proof {
        let fin = nodes@;
        assert(fin.subrange(0, start.len() as int) =~= start) by {
            assert(end.subrange(0, start.len() as int) == start);
        }
        assert(fin.subrange(0, end.len() as int) =~= end);
        lemma_prefix(end, fin, boxes@, left);
        lemma_prefix(end, fin, boxes@, right);
        assert(fin[k as int] == node);
        lemma_built_prefix(mid, end, boxes@, left, left_ids@);
        lemma_built_prefix(end, fin, boxes@, left, left_ids@);
        lemma_built_prefix(end, fin, boxes@, right, right_ids@);
        assert(is_split(boxes@, ids@, left_ids@, right_ids@) && built(fin, boxes@, left, left_ids@)
            && built(fin, boxes@, right, right_ids@));
        assert forall|x: usize| leaves(fin, Child::Inner(k)).contains(x) <==> ids@.contains(x) by {
            assert(leaves(fin, Child::Inner(k)) == leaves(fin, left) + leaves(fin, right));
            if sorted.contains(x) {
                let j = choose|j: int| 0 <= j < sorted.len() && sorted[j] == x;
                if j < left_ids@.len() {
                    assert(left_ids@[j] == x);
                } else {
                    assert(right_ids@[j - left_ids@.len()] == x);
                }
            }
            if left_ids@.contains(x) {
                let j = choose|j: int| 0 <= j < left_ids@.len() && left_ids@[j] == x;
                assert(sorted_seq[j] == x);
            }
            if right_ids@.contains(x) {
                let j = choose|j: int| 0 <= j < right_ids@.len() && right_ids@[j] == x;
                assert(sorted_seq[left_ids@.len() + j] == x);
            }
        }
    }
    Child::Inner(k)
}

/// A bounding volume hierarchy over primitives given by their boxes.
pub struct BVHNode {
    pub boxes: Vec<AABB>,
    pub nodes: Vec<Node>,
    pub root: Child,
    pub bbox: AABB,
}

impl BVHNode {
    /// The arena is well formed over the primitive boxes, and `bbox` is the
    /// box of the root.
    pub open spec fn wf(&self) -> bool {
        &&& nodes_wf(self.nodes@, self.boxes@)
        &&& child_ok(self.boxes@, self.root, self.nodes@.len() as int)
        &&& child_box(self.nodes@, self.boxes@, self.root) == self.bbox
    }

    /// Builds the hierarchy over primitives `0 .. boxes.len()`, where
    /// `boxes[i]` is the box of primitive `i`.
    pub fn new(boxes: Vec<AABB>) -> (r: BVHNode)
        requires
            1 <= boxes.len() <= u32::MAX,
        ensures
            r.boxes@ == boxes@,
            r.wf(),
            r.bbox == union_all(boxes@),
            forall|x: usize| #[trigger] leaves(r.nodes@, r.root).contains(x) <==> x < boxes.len(),
            built(r.nodes@, boxes@, r.root, Seq::new(boxes.len() as nat, |i: int| i as usize)),
    {
        let mut ids: Vec<usize> = Vec::new();
        let mut i: usize = 0;
        while i < boxes.len()
            invariant
                i <= boxes.len(),
                ids.len() == i,
                forall|k: int| 0 <= k < i ==> ids[k] == k,
            decreases boxes.len() - i,
        {
            ids.push(i);
            i = i + 1;
        }
        let ghost id_seq = ids@;
        assert(id_seq =~= Seq::new(boxes.len() as nat, |i: int| i as usize));
        assert(boxes_of(boxes@, ids@) =~= boxes@);
        let mut nodes: Vec<Node> = Vec::new();
        let root = build(&boxes, ids, &mut nodes);
        let bbox = match root {
            Child::Leaf(p) => boxes[p],
            Child::Inner(k) => nodes[k].bbox,
        };
        proof {
            assert forall|x: usize| #[trigger] leaves(nodes@, root).contains(x) <==> x < boxes.len() by {
                if x < boxes.len() {
                    assert(id_seq[x as int] == x);
                    assert(id_seq.contains(x));
                }
                if id_seq.contains(x) {
                    let k = choose|k: int| 0 <= k < id_seq.len() && id_seq[k] == x;
                }
            }
        }
        BVHNode { boxes, nodes, root, bbox }
    }
}

/// The box at the root of a freshly built hierarchy is the union of the
/// boxes of all its primitives: it encloses each of them, and every box that
/// encloses them all encloses it.
pub proof fn lemma_root_box(tree: BVHNode, boxes: Seq<AABB>, c: AABB)
    requires
        boxes.len() >= 1,
        tree.bbox == union_all(boxes),
    ensures
        forall|i: int| 0 <= i < boxes.len() ==> tree.bbox.contains(#[trigger] boxes[i]),
        (forall|i: int| 0 <= i < boxes.len() ==> c.contains(#[trigger] boxes[i])) ==> c.contains(
            tree.bbox,
        ),
{
    lemma_union_all_least(boxes, c);
}

/// Nearest hit found by the traversal below `c`: a node whose box the ray
/// misses yields nothing, otherwise the nearer of its children's hits.
pub open spec fn tree_time(
    nodes: Seq<Node>,
    c: Child,
    r: Ray,
    tmin: i64,
    tmax: i64,
    ts: Seq<Option<i64>>,
) -> Option<i64>
    decreases rank(c),
{
    match c {
        Child::Leaf(i) => if valid_t(ts[i as int], tmin, tmax) {
            ts[i as int]
        } else {
            None
        },
        Child::Inner(k) => if k < nodes.len() && rank(nodes[k as int].left) <= k && rank(
            nodes[k as int].right,
        ) <= k && nodes[k as int].bbox.hit_spec(r, tmin as int, Some(tmax as int)) {
            nearer(
                tree_time(nodes, nodes[k as int].left, r, tmin, tmax, ts),
                tree_time(nodes, nodes[k as int].right, r, tmin, tmax, ts),
            )
        } else {
            None
        },
    }
}

impl BVHNode {
    fn hit_child(
        &self,
        c: Child,
        r: &Ray,
        time_min: i64,
        time_max: i64,
        prim_t: &Vec<Option<i64>>,
    ) -> (res: Option<HitInfo>)
        requires
            self.wf(),
            prim_t.len() == self.boxes.len(),
            child_ok(self.boxes@, c, self.nodes@.len() as int),
        ensures
            time_of(res) == tree_time(self.nodes@, c, *r, time_min, time_max, prim_t@),
            res matches Some(h) ==> h.prim < prim_t.len() && prim_t[h.prim as int] == Some(h.time)
                && leaves(self.nodes@, c).contains(h.prim),
        decreases rank(c),
    {
        match c {
            Child::Leaf(i) => {
                if let Some(t) = prim_t[i] {
                    if time_min < t && t < time_max {
                        return Some(HitInfo { time: t, prim: i });
                    }
                }
                None
            },
            Child::Inner(k) => {
                let node = self.nodes[k];
                assert(node_ok(self.nodes@, self.boxes@, k as int));
                if !node.bbox.hit(r, time_min, Some(time_max)) {
                    return None;
                }
                let hl = self.hit_child(node.left, r, time_min, time_max, prim_t);
                let hr = self.hit_child(node.right, r, time_min, time_max, prim_t);
                closer(hl, hr)
            },
        }
    }

    /// Nearest hit in `(time_min, time_max)` among the primitives whose
    /// boxes on the way down the ray hits, where `prim_t[i]` is where
    /// primitive `i` was hit, if at all.
    pub fn hit(&self, r: &Ray, time_min: i64, time_max: i64, prim_t: &Vec<Option<i64>>) -> (res:
        Option<HitInfo>)
        requires
            self.wf(),
            prim_t.len() == self.boxes.len(),
        ensures
            time_of(res) == tree_time(self.nodes@, self.root, *r, time_min, time_max, prim_t@),
            res matches Some(h) ==> h.prim < prim_t.len() && prim_t[h.prim as int] == Some(h.time),
    {
        self.hit_child(self.root, r, time_min, time_max, prim_t)
    }

    /// The box of the whole hierarchy.
    pub fn bounding_box(&self) -> (r: AABB)
        ensures
            r == self.bbox,
    {
        self.bbox
    }
}

/// The box of a child encloses the box of every primitive below it.
proof fn lemma_leaf_box(nodes: Seq<Node>, boxes: Seq<AABB>, c: Child, p: usize)
    requires
        nodes_wf(nodes, boxes),
        child_ok(boxes, c, nodes.len() as int),
        leaves(nodes, c).contains(p),
    ensures
        p < boxes.len(),
        child_box(nodes, boxes, c).contains(boxes[p as int]),
    decreases rank(c),
{
    match c {
        Child::Leaf(i) => {
            assert(set![i].contains(p));
        },
        Child::Inner(k) => {
            let n = nodes[k as int];
            assert(node_ok(nodes, boxes, k as int));
            if leaves(nodes, n.left).contains(p) {
                lemma_leaf_box(nodes, boxes, n.left, p);
                lemma_contains_trans(n.bbox, child_box(nodes, boxes, n.left), boxes[p as int]);
            } else {
                lemma_leaf_box(nodes, boxes, n.right, p);
                lemma_contains_trans(n.bbox, child_box(nodes, boxes, n.right), boxes[p as int]);
            }
        },
    }
}

/// Where every valid primitive hit lies within a box that the ray hits,
/// the traversal below `c` finds the least valid hit of the primitives
/// below `c`, and nothing when there is none.
proof fn lemma_tree_time_min(
    nodes: Seq<Node>,
    boxes: Seq<AABB>,
    c: Child,
    r: Ray,
    tmin: i64,
    tmax: i64,
    ts: Seq<Option<i64>>,
)
    requires
        nodes_wf(nodes, boxes),
        child_ok(boxes, c, nodes.len() as int),
        ts.len() == boxes.len(),
        forall|p: int| 0 <= p < ts.len() && valid_t(#[trigger] ts[p], tmin, tmax)
            ==> boxes[p].hit_spec(r, tmin as int, Some(tmax as int)),
    ensures
        (tree_time(nodes, c, r, tmin, tmax, ts) is None) == (forall|p: usize|
            #[trigger] leaves(nodes, c).contains(p) ==> !valid_t(ts[p as int], tmin, tmax)),
        tree_time(nodes, c, r, tmin, tmax, ts) is Some ==> (exists|p: usize|
            #[trigger] leaves(nodes, c).contains(p) && ts[p as int] == tree_time(nodes, c, r, tmin, tmax, ts)
            && valid_t(ts[p as int], tmin, tmax)),
        tree_time(nodes, c, r, tmin, tmax, ts) is Some ==> (forall|p: usize|
            #[trigger] leaves(nodes, c).contains(p) && valid_t(ts[p as int], tmin, tmax)
            ==> tree_time(nodes, c, r, tmin, tmax, ts)->0 <= ts[p as int]->0),
    decreases rank(c),
{
    match c {
        Child::Leaf(i) => {
            let t = tree_time(nodes, c, r, tmin, tmax, ts);
            assert(leaves(nodes, c) == set![i]);
            assert(leaves(nodes, c).contains(i));
            assert forall|p: usize| #[trigger] leaves(nodes, c).contains(p) implies p == i by {
                assert(set![i].contains(p));
            }
            if t is Some {
                assert(leaves(nodes, c).contains(i) && ts[i as int] == t && valid_t(t, tmin, tmax));
                assert(exists|p: usize| #[trigger] leaves(nodes, c).contains(p) && ts[p as int] == t && valid_t(t, tmin, tmax));
            } else {
                assert(!valid_t(ts[i as int], tmin, tmax));
                assert(forall|p: usize| #[trigger] leaves(nodes, c).contains(p) ==> !valid_t(ts[p as int], tmin, tmax));
            }
            assert((forall|p: usize| #[trigger] leaves(nodes, c).contains(p) ==> !valid_t(ts[p as int], tmin, tmax)) ==> t is None);
            assert(t is Some ==> forall|p: usize| #[trigger] leaves(nodes, c).contains(p) && valid_t(ts[p as int], tmin, tmax)
                ==> t->0 <= ts[p as int]->0);
        },
        Child::Inner(k) => {
            let n = nodes[k as int];
            assert(node_ok(nodes, boxes, k as int));
            lemma_tree_time_min(nodes, boxes, n.left, r, tmin, tmax, ts);
            lemma_tree_time_min(nodes, boxes, n.right, r, tmin, tmax, ts);
            let all = leaves(nodes, c);
            assert(all == leaves(nodes, n.left) + leaves(nodes, n.right));
            if !n.bbox.hit_spec(r, tmin as int, Some(tmax as int)) {
                assert forall|p: usize| #[trigger] leaves(nodes, c).contains(p) implies !valid_t(ts[p as int], tmin, tmax) by {
                    lemma_leaf_box(nodes, boxes, c, p);
                    if valid_t(ts[p as int], tmin, tmax) {
                        lemma_hit_enclosing(boxes[p as int], n.bbox, r, tmin as int, Some(tmax as int));
                    }
                }
            } else {
                let tl = tree_time(nodes, n.left, r, tmin, tmax, ts);
                let tr = tree_time(nodes, n.right, r, tmin, tmax, ts);
                let t = tree_time(nodes, c, r, tmin, tmax, ts);
                assert(t == nearer(tl, tr));
                if t is Some {
                    if t == tl {
                        let p = choose|p: usize| #[trigger] leaves(nodes, n.left).contains(p)
                            && ts[p as int] == tl && valid_t(ts[p as int], tmin, tmax);
                        assert(all.contains(p));
                    } else {
                        let p = choose|p: usize| #[trigger] leaves(nodes, n.right).contains(p)
                            && ts[p as int] == tr && valid_t(ts[p as int], tmin, tmax);
                        assert(all.contains(p));
                    }
                    assert forall|p: usize| #[trigger] leaves(nodes, c).contains(p) && valid_t(ts[p as int], tmin, tmax)
                        implies t->0 <= ts[p as int]->0 by {
                        if leaves(nodes, n.left).contains(p) {
                            assert(tl is Some);
                        } else {
                            assert(tr is Some);
                        }
                    }
                } else {
                    assert forall|p: usize| #[trigger] leaves(nodes, c).contains(p) implies !valid_t(ts[p as int], tmin, tmax) by {
                        if leaves(nodes, n.left).contains(p) {
                        } else {
                        }
                    }
                }
            }
        },
    }
}

/// A freshly built hierarchy and the linear scan over the same primitives
/// report the same nearest hit time, provided each primitive is only hit
/// inside its own box.
pub proof fn lemma_bvh_matches_scan(tree: BVHNode, r: Ray, tmin: i64, tmax: i64, ts: Seq<Option<i64>>)
    requires
        tree.wf(),
        forall|x: usize| #[trigger] leaves(tree.nodes@, tree.root).contains(x) <==> x < tree.boxes.len(),
        ts.len() == tree.boxes.len(),
        forall|p: int| 0 <= p < ts.len() && valid_t(#[trigger] ts[p], tmin, tmax)
            ==> tree.boxes@[p].hit_spec(r, tmin as int, Some(tmax as int)),
    ensures
        tree_time(tree.nodes@, tree.root, r, tmin, tmax, ts) == crate::scene::scan_time(ts, tmin, tmax),
{
    lemma_tree_time_min(tree.nodes@, tree.boxes@, tree.root, r, tmin, tmax, ts);
    crate::scene::lemma_scan_min(ts, tmin, tmax);
    let a = tree_time(tree.nodes@, tree.root, r, tmin, tmax, ts);
    let b = crate::scene::scan_time(ts, tmin, tmax);
    if a is Some {
        let p = choose|p: usize| #[trigger] leaves(tree.nodes@, tree.root).contains(p) && ts[p as int] == a && valid_t(ts[p as int], tmin, tmax);
        assert(valid_t(ts[p as int], tmin, tmax));
    }
    if b is Some {
        let q = choose|q: int| 0 <= q < ts.len() && ts[q] == b && valid_t(ts[q], tmin, tmax);
        assert(leaves(tree.nodes@, tree.root).contains(q as usize));
    }
}

/// The primitives below a subtree built over `ids` are those of `ids`.
pub proof fn lemma_built_leaves(nodes: Seq<Node>, boxes: Seq<AABB>, c: Child, ids: Seq<usize>)
    requires
        built(nodes, boxes, c, ids),
    ensures
        forall|x: usize| #[trigger] leaves(nodes, c).contains(x) <==> ids.contains(x),
    decreases rank(c),
{
    match c {
        Child::Leaf(i) => {
            assert forall|x: usize| #[trigger] leaves(nodes, c).contains(x) <==> ids.contains(x) by {
                if ids.contains(x) {
                    let j = choose|j: int| 0 <= j < ids.len() && ids[j] == x;
                }
                if x == i {
                    assert(ids[0] == x);
                }
            }
        },
        Child::Inner(k) => {
            let n = nodes[k as int];
            let (l, r) = choose|l: Seq<usize>, r: Seq<usize>|
                #[trigger] is_split(boxes, ids, l, r) && built(nodes, boxes, n.left, l) && built(nodes, boxes, n.right, r);
            lemma_built_leaves(nodes, boxes, n.left, l);
            lemma_built_leaves(nodes, boxes, n.right, r);
            let s = l + r;
            assert forall|x: usize| #[trigger] leaves(nodes, c).contains(x) <==> ids.contains(x) by {
                assert(leaves(nodes, c) == leaves(nodes, n.left) + leaves(nodes, n.right));
                if l.contains(x) {
                    let j = choose|j: int| 0 <= j < l.len() && l[j] == x;
                    assert(s[j] == x);
                }
                if r.contains(x) {
                    let j = choose|j: int| 0 <= j < r.len() && r[j] == x;
                    assert(s[l.len() + j] == x);
                }
                if s.contains(x) {
                    let j = choose|j: int| 0 <= j < s.len() && s[j] == x;
                    if j < l.len() {
                        assert(l[j] == x);
                    } else {
                        assert(r[j - l.len()] == x);
                    }
                }
            }
        },
    }
}

/// At every node of a built tree, the primitives of the left subtree lie no
/// higher, by the low corner of their boxes on the longest axis of the node's
/// box, than those of the right subtree; in particular a primitive whose low
/// corner on that axis is strictly the least lies on the left.
pub proof fn lemma_left_before_right(nodes: Seq<Node>, boxes: Seq<AABB>, k: usize, ids: Seq<usize>, p: usize, q: usize)
    requires
        built(nodes, boxes, Child::Inner(k), ids),
        leaves(nodes, nodes[k as int].left).contains(p),
        leaves(nodes, nodes[k as int].right).contains(q),
    ensures
        boxes[p as int].lo(nodes[k as int].bbox.longest_axis_spec()) <= boxes[q as int].lo(
            nodes[k as int].bbox.longest_axis_spec(),
        ),
{
    let n = nodes[k as int];
    let (l, r) = choose|l: Seq<usize>, r: Seq<usize>|
        #[trigger] is_split(boxes, ids, l, r) && built(nodes, boxes, n.left, l) && built(nodes, boxes, n.right, r);
    lemma_built_leaves(nodes, boxes, n.left, l);
    lemma_built_leaves(nodes, boxes, n.right, r);
    let s = l + r;
    let a = choose|a: int| 0 <= a < l.len() && l[a] == p;
    let b = choose|b: int| 0 <= b < r.len() && r[b] == q;
    assert(s[a] == p);
    assert(s[l.len() + b] == q);
}

} // verus!
